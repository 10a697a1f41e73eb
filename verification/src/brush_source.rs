//! Putting brush packages together with the shader that hosts them.

use vstd::prelude::*;

verus! {

/// `pattern` stands in `text` at `at`.
pub open spec fn occurs_at(text: Seq<char>, pattern: Seq<char>, at: int) -> bool {
    &&& 0 <= at
    &&& at + pattern.len() <= text.len()
    &&& text.subrange(at, at + pattern.len()) == pattern
}

/// The first place at or after `from` at which `pattern` stands in `text`.
pub open spec fn first_from(text: Seq<char>, pattern: Seq<char>, from: int) -> Option<int>
    decreases text.len() + 1 - from,
{
    if from > text.len() {
        None
    } else if occurs_at(text, pattern, from) {
        Some(from)
    } else {
        first_from(text, pattern, from + 1)
    }
}

/// The text from `from` on, with `with` in every place of `pattern`. The places are taken from
/// left to right and do not overlap.
pub open spec fn replaced_from(
    text: Seq<char>,
    pattern: Seq<char>,
    with: Seq<char>,
    from: int,
) -> Seq<char>
    decreases text.len() - from,
{
    match first_from(text, pattern, from) {
        Some(at) => if from <= at && 0 < pattern.len() && at + pattern.len() <= text.len() {
            text.subrange(from, at) + with + replaced_from(
                text,
                pattern,
                with,
                at + pattern.len(),
            )
        } else {
            text.subrange(from, text.len() as int)
        },
        None => text.subrange(from, text.len() as int),
    }
}

/// The host shader and the package after it.
pub open spec fn plain_text(host: Seq<char>, package: Seq<char>) -> Seq<char> {
    host + "\n"@ + package
}

/// The host shader with two channels to draw into.
pub open spec fn two_channel_host(host: Seq<char>) -> Seq<char> {
    replaced_from(
        replaced_from(
            host,
            "fn clear_fs() -> @location(0) f32 {\n    return 0.0;"@,
            "fn clear_fs() -> @location(0) vec2<f32> {\n    return vec2<f32>(0.0);"@,
            0,
        ),
        "fn round_fs(input: RoundVertexOutput) -> @location(0) f32"@,
        "fn round_fs(input: RoundVertexOutput) -> @location(0) vec2<f32>"@,
        0,
    )
}

/// The host shader and the package after it, with the end of the host's coverage step asking the
/// package for coverage and height. There is none where the host has no such step.
pub open spec fn material_text(host: Seq<char>, package: Seq<char>) -> Option<Seq<char>> {
    let host = two_channel_host(host);
    match first_from(host, "    let coverage = brush_coverage(brush);"@, 0) {
        Some(start) => match first_from(host, "\n}"@, start) {
            Some(end) => Some(
                host.subrange(0, start)
                    + "    let deposit = brush_deposit(brush);\n    let coverage = select(0.0, min(deposit.x, 1.0), deposit.x > 0.0);\n    let height = select(0.0, min(deposit.y, 4.0), deposit.y > 0.0);\n    return vec2<f32>(coverage, height * coverage);"@
                    + host.subrange(end, host.len() as int) + "\n"@ + package,
            ),
            None => None,
        },
        None => None,
    }
}

/// What is found stands at or after the start, and the pattern stands nowhere between; where
/// nothing is found it stands nowhere from the start on.
pub proof fn law_first_place_is_found(text: Seq<char>, pattern: Seq<char>, from: int)
    requires
        0 <= from,
    ensures
        match first_from(text, pattern, from) {
            Some(at) => from <= at && occurs_at(text, pattern, at) && forall|k: int|
                from <= k < at ==> !#[trigger] occurs_at(text, pattern, k),
            None => forall|k: int| from <= k ==> !#[trigger] occurs_at(text, pattern, k),
        },
    decreases text.len() + 1 - from,
{
    if from <= text.len() && !occurs_at(text, pattern, from) {
        law_first_place_is_found(text, pattern, from + 1);
    }
}

fn letters(text: &str) -> (letters: Vec<char>)
    ensures
        letters@ == text@,
{
    let mut letters: Vec<char> = Vec::new();
    for letter in rest: text.chars()
        invariant
            letters@ == rest.seq().subrange(0, rest.index() as int),
            rest.seq() == text@,
    {
        letters.push(letter);
    }
    letters
}

fn stands_at(text: &Vec<char>, pattern: &Vec<char>, at: usize) -> (stands: bool)
    ensures
        stands == occurs_at(text@, pattern@, at as int),
{
    if at > text.len() || pattern.len() > text.len() - at {
        return false;
    }
    let mut i: usize = 0;
    while i < pattern.len()
        invariant
            at + pattern@.len() <= text@.len() <= usize::MAX,
            i <= pattern@.len(),
            text@.subrange(at as int, at + i) == pattern@.subrange(0, i as int),
        decreases pattern@.len() - i,
    {
        if text[at + i] != pattern[i] {
            assert(text@.subrange(at as int, at + pattern@.len())[i as int] != pattern@[i as int]);
            return false;
        }
        assert(text@.subrange(at as int, at + i + 1) =~= text@.subrange(at as int, at + i).push(
            text@[at + i],
        ));
        assert(pattern@.subrange(0, i + 1) =~= pattern@.subrange(0, i as int).push(
            pattern@[i as int],
        ));
        i += 1;
    }
    assert(pattern@.subrange(0, i as int) =~= pattern@);
    true
}

fn find_from(text: &Vec<char>, pattern: &Vec<char>, from: usize) -> (found: Option<usize>)
    ensures
        match found {
            Some(at) => first_from(text@, pattern@, from as int) == Some(at as int),
            None => first_from(text@, pattern@, from as int) is None,
        },
{
    if from > text.len() {
        return None;
    }
    let mut at: usize = from;
    while at < text.len()
        invariant
            at <= text@.len(),
            first_from(text@, pattern@, from as int) == first_from(text@, pattern@, at as int),
        decreases text@.len() - at,
    {
        if stands_at(text, pattern, at) {
            return Some(at);
        }
        at += 1;
    }
    if stands_at(text, pattern, at) {
        return Some(at);
    }
    assert(first_from(text@, pattern@, at + 1) is None);
    None
}

fn replace(text: &str, pattern: &str, with: &str) -> (result: String)
    requires
        0 < pattern@.len(),
    ensures
        result@ == replaced_from(text@, pattern@, with@, 0),
{
    let text_letters = letters(text);
    let pattern_letters = letters(pattern);
    let length: usize = text_letters.len();
    let mut result = String::new();
    let mut from: usize = 0;
    loop
        invariant
            0 < pattern@.len(),
            text_letters@ == text@,
            length == text@.len(),
            pattern_letters@ == pattern@,
            from <= text@.len(),
            replaced_from(text@, pattern@, with@, 0) == result@ + replaced_from(
                text@,
                pattern@,
                with@,
                from as int,
            ),
        decreases text@.len() - from,
    {
        let ghost before = result@;
        proof {
            law_first_place_is_found(text@, pattern@, from as int);
        }
        match find_from(&text_letters, &pattern_letters, from) {
            Some(at) => {
                result.append(text.substring_char(from, at));
                result.append(with);
                let next: usize = at + pattern_letters.len();
                assert(before + replaced_from(text@, pattern@, with@, from as int) =~= result@
                    + replaced_from(text@, pattern@, with@, next as int));
                from = next;
            },
            None => {
                result.append(text.substring_char(from, length));
                return result;
            },
        }
    }
}

/// What is compiled for a brush package that lays down coverage.
pub fn brush_source(host: &str, package: &str) -> (source: String)
    ensures
        source@ == plain_text(host@, package@),
{
    let mut source = host.to_owned();
    source.append("\n");
    source.append(package);
    source
}

/// What is compiled for a brush package that lays down coverage and height.
pub fn material_brush_source(host: &str, package: &str) -> (source: Option<String>)
    ensures
        match source {
            Some(source) => material_text(host@, package@) == Some(source@),
            None => material_text(host@, package@) is None,
        },
{
    proof {
        reveal_strlit("fn clear_fs() -> @location(0) f32 {\n    return 0.0;");
        reveal_strlit("fn round_fs(input: RoundVertexOutput) -> @location(0) f32");
    }
    let cleared = replace(
        host,
        "fn clear_fs() -> @location(0) f32 {\n    return 0.0;",
        "fn clear_fs() -> @location(0) vec2<f32> {\n    return vec2<f32>(0.0);",
    );
    let host = replace(
        cleared.as_str(),
        "fn round_fs(input: RoundVertexOutput) -> @location(0) f32",
        "fn round_fs(input: RoundVertexOutput) -> @location(0) vec2<f32>",
    );
    let host_letters = letters(host.as_str());
    let step = letters("    let coverage = brush_coverage(brush);");
    let start: usize = match find_from(&host_letters, &step, 0) {
        Some(start) => start,
        None => {
            return None;
        },
    };
    let close = letters("\n}");
    let end: usize = match find_from(&host_letters, &close, start) {
        Some(end) => end,
        None => {
            return None;
        },
    };
    proof {
        law_first_place_is_found(host@, step@, 0);
        law_first_place_is_found(host@, close@, start as int);
    }
    let mut source = host.as_str().substring_char(0, start).to_owned();
    source.append(
        "    let deposit = brush_deposit(brush);\n    let coverage = select(0.0, min(deposit.x, 1.0), deposit.x > 0.0);\n    let height = select(0.0, min(deposit.y, 4.0), deposit.y > 0.0);\n    return vec2<f32>(coverage, height * coverage);",
    );
    source.append(host.as_str().substring_char(end, host_letters.len()));
    source.append("\n");
    source.append(package);
    Some(source)
}

} // verus!
