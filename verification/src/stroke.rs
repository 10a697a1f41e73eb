//! Round brush strokes. Numbers with a fraction are held by their bits.

use vstd::prelude::*;

verus! {

/// The bits of a 32 bit number without its sign.
pub open spec fn magnitude(bits: u32) -> int {
    if bits >= 0x8000_0000 {
        bits - 0x8000_0000
    } else {
        bits as int
    }
}

pub open spec fn is_number(bits: u32) -> bool {
    magnitude(bits) <= 0x7f80_0000
}

pub open spec fn is_finite(bits: u32) -> bool {
    magnitude(bits) < 0x7f80_0000
}

/// Whether two 32 bit numbers compare equal. The two zeros do, and nothing equals
/// what is no number.
pub open spec fn numbers_equal(a: u32, b: u32) -> bool {
    is_number(a) && is_number(b) && (a == b || (magnitude(a) == 0 && magnitude(b) == 0))
}

/// Whether a finite number is greater than zero.
pub open spec fn is_positive(bits: u32) -> bool {
    0 < bits < 0x7f80_0000
}

pub(crate) fn without_sign(bits: u32) -> (magnitude: u32)
    ensures
        magnitude == self::magnitude(bits),
{
    if bits >= 0x8000_0000 {
        bits - 0x8000_0000
    } else {
        bits
    }
}

pub(crate) fn equal_numbers(a: u32, b: u32) -> (equal: bool)
    ensures
        equal == numbers_equal(a, b),
{
    let left: u32 = without_sign(a);
    let right: u32 = without_sign(b);
    left <= 0x7f80_0000 && right <= 0x7f80_0000 && (a == b || (left == 0 && right == 0))
}

/// Where a round brush touches the canvas.
#[derive(Clone, Copy, Debug, PartialEq, Eq)]
pub struct RoundContact {
    pub center: [u32; 2],
    pub radius: u32,
    pub elapsed_micros: u64,
}

impl RoundContact {
    pub open spec fn valid(self) -> bool {
        &&& is_finite(self.center[0])
        &&& is_finite(self.center[1])
        &&& is_positive(self.radius)
    }

    pub open spec fn equals(self, other: RoundContact) -> bool {
        &&& numbers_equal(self.center[0], other.center[0])
        &&& numbers_equal(self.center[1], other.center[1])
        &&& numbers_equal(self.radius, other.radius)
        &&& self.elapsed_micros == other.elapsed_micros
    }

    pub fn is_valid(self) -> (valid: bool)
        ensures
            valid == self.valid(),
    {
        without_sign(self.center[0]) < 0x7f80_0000 && without_sign(self.center[1]) < 0x7f80_0000
            && self.radius > 0 && self.radius < 0x7f80_0000
    }

    pub fn same(self, other: RoundContact) -> (same: bool)
        ensures
            same == self.equals(other),
    {
        equal_numbers(self.center[0], other.center[0]) && equal_numbers(
            self.center[1],
            other.center[1],
        ) && equal_numbers(self.radius, other.radius) && self.elapsed_micros
            == other.elapsed_micros
    }
}

#[derive(Clone, Copy, Debug, PartialEq, Eq)]
#[allow(inconsistent_fields)]
pub enum RoundPathCommand {
    Begin(RoundContact),
    Sweep { from: RoundContact, to: RoundContact },
    End { at: RoundContact, elapsed_micros: u64 },
}

#[derive(Clone, Copy, Debug, PartialEq, Eq, Structural)]
pub enum StrokeError {
    PathAlreadyActive,
    PathNotActive,
    DiscontinuousPath,
    InvalidContact,
    InvalidMaterial,
    InvalidBrush,
}

/// How the touches of one stroke add up.
#[derive(Clone, Copy, Debug, PartialEq, Eq, Structural)]
pub enum StrokeAccumulation {
    NoEffect,
    CoverageUnion,
    OpticalDensity { flow: u32 },
}

/// What a stroke does to the canvas.
#[derive(Clone, Copy, Debug, PartialEq, Eq, Structural)]
pub enum PaintOperation {
    SourceOver,
    DestinationOut,
}

/// The bits of the number one.
pub const ONE_BITS: u32 = 0x3f80_0000;

/// Whether a number lies between zero and one.
pub open spec fn is_fraction(bits: u32) -> bool {
    bits <= ONE_BITS || magnitude(bits) == 0
}

/// The paint of a stroke.
#[derive(Clone, Copy, Debug, PartialEq, Eq)]
pub struct StrokeMaterial {
    pub(crate) operation: PaintOperation,
    pub(crate) color: [u32; 3],
    pub(crate) opacity: u32,
    pub(crate) flow: u32,
}

pub struct MaterialModel {
    pub operation: PaintOperation,
    pub color: [u32; 3],
    pub opacity: u32,
    pub flow: u32,
}

impl View for StrokeMaterial {
    type V = MaterialModel;

    open(crate) spec fn view(&self) -> MaterialModel {
        MaterialModel {
            operation: self.operation,
            color: self.color,
            opacity: self.opacity,
            flow: self.flow,
        }
    }
}

impl MaterialModel {
    /// Paint that is transparent or does not flow leaves no mark. Full flow covers, less
    /// flow builds up.
    pub open spec fn accumulation(self) -> StrokeAccumulation {
        if magnitude(self.opacity) == 0 || magnitude(self.flow) == 0 {
            StrokeAccumulation::NoEffect
        } else if self.flow == ONE_BITS {
            StrokeAccumulation::CoverageUnion
        } else {
            StrokeAccumulation::OpticalDensity { flow: self.flow }
        }
    }

    pub open spec fn valid(self) -> bool {
        &&& is_finite(self.color[0])
        &&& is_finite(self.color[1])
        &&& is_finite(self.color[2])
        &&& is_fraction(self.opacity)
        &&& is_fraction(self.flow)
    }
}

pub(crate) fn in_unit_range(bits: u32) -> (inside: bool)
    ensures
        inside == is_fraction(bits),
{
    bits <= ONE_BITS || without_sign(bits) == 0
}

impl StrokeMaterial {
    pub fn paint(color: [u32; 3], opacity: u32, flow: u32) -> (material: Result<
        StrokeMaterial,
        StrokeError,
    >)
        ensures
            ({
                let model = MaterialModel {
                    operation: PaintOperation::SourceOver,
                    color,
                    opacity,
                    flow,
                };
                match material {
                    Ok(material) => model.valid() && material@ == model,
                    Err(error) => error == StrokeError::InvalidMaterial && !model.valid(),
                }
            }),
    {
        let finite = without_sign(color[0]) < 0x7f80_0000 && without_sign(color[1]) < 0x7f80_0000
            && without_sign(color[2]) < 0x7f80_0000;
        if !finite || !in_unit_range(opacity) || !in_unit_range(flow) {
            return Err(StrokeError::InvalidMaterial);
        }
        Ok(StrokeMaterial { operation: PaintOperation::SourceOver, color, opacity, flow })
    }

    pub fn eraser(opacity: u32, flow: u32) -> (material: Result<StrokeMaterial, StrokeError>)
        ensures
            match material {
                Ok(material) => {
                    &&& is_fraction(opacity) && is_fraction(flow)
                    &&& material@ == (MaterialModel {
                        operation: PaintOperation::DestinationOut,
                        color: [0, 0, 0],
                        opacity,
                        flow,
                    })
                },
                Err(error) => error == StrokeError::InvalidMaterial && !(is_fraction(opacity)
                    && is_fraction(flow)),
            },
    {
        if !in_unit_range(opacity) || !in_unit_range(flow) {
            return Err(StrokeError::InvalidMaterial);
        }
        let material = StrokeMaterial {
            operation: PaintOperation::DestinationOut,
            color: [0, 0, 0],
            opacity,
            flow,
        };
        Ok(material)
    }

    pub fn operation(self) -> (operation: PaintOperation)
        ensures
            operation == self@.operation,
    {
        self.operation
    }

    pub fn color(self) -> (color: [u32; 3])
        ensures
            color == self@.color,
    {
        self.color
    }

    pub fn opacity(self) -> (opacity: u32)
        ensures
            opacity == self@.opacity,
    {
        self.opacity
    }

    pub fn flow(self) -> (flow: u32)
        ensures
            flow == self@.flow,
    {
        self.flow
    }

    pub fn accumulation(self) -> (accumulation: StrokeAccumulation)
        ensures
            accumulation == self@.accumulation(),
    {
        if without_sign(self.opacity) == 0 || without_sign(self.flow) == 0 {
            StrokeAccumulation::NoEffect
        } else if self.flow == ONE_BITS {
            StrokeAccumulation::CoverageUnion
        } else {
            StrokeAccumulation::OpticalDensity { flow: self.flow }
        }
    }
}

/// A round brush with its paint.
#[derive(Clone, Copy, Debug, PartialEq, Eq)]
pub struct RoundBrushRecipeV1 {
    pub(crate) material: StrokeMaterial,
    pub(crate) diameter: u32,
    pub(crate) minimum_pressure_fraction: u32,
}

pub struct RecipeModel {
    pub material: MaterialModel,
    pub diameter: u32,
    pub minimum_pressure_fraction: u32,
}

impl View for RoundBrushRecipeV1 {
    type V = RecipeModel;

    open(crate) spec fn view(&self) -> RecipeModel {
        RecipeModel {
            material: self.material@,
            diameter: self.diameter,
            minimum_pressure_fraction: self.minimum_pressure_fraction,
        }
    }
}

impl RoundBrushRecipeV1 {
    pub fn with_minimum_pressure_fraction(
        material: StrokeMaterial,
        diameter: u32,
        minimum_pressure_fraction: u32,
    ) -> (recipe: Result<RoundBrushRecipeV1, StrokeError>)
        ensures
            match recipe {
                Ok(recipe) => {
                    &&& is_positive(diameter) && is_fraction(minimum_pressure_fraction)
                    &&& recipe@ == (RecipeModel {
                        material: material@,
                        diameter,
                        minimum_pressure_fraction,
                    })
                },
                Err(error) => error == StrokeError::InvalidBrush && !(is_positive(diameter)
                    && is_fraction(minimum_pressure_fraction)),
            },
    {
        if !(diameter > 0 && diameter < 0x7f80_0000) || !in_unit_range(minimum_pressure_fraction) {
            return Err(StrokeError::InvalidBrush);
        }
        Ok(RoundBrushRecipeV1 { material, diameter, minimum_pressure_fraction })
    }

    pub fn material(self) -> (material: StrokeMaterial)
        ensures
            material@ == self@.material,
    {
        self.material
    }

    pub fn diameter(self) -> (diameter: u32)
        ensures
            diameter == self@.diameter,
    {
        self.diameter
    }
}

/// The contact that a path has reached after one more command.
pub open spec fn path_step(active: Option<RoundContact>, command: RoundPathCommand) -> Result<
    Option<RoundContact>,
    StrokeError,
> {
    match command {
        RoundPathCommand::Begin(contact) => if active is Some {
            Err(StrokeError::PathAlreadyActive)
        } else if !contact.valid() {
            Err(StrokeError::InvalidContact)
        } else {
            Ok(Some(contact))
        },
        RoundPathCommand::Sweep { from, to } => if !from.valid() || !to.valid() {
            Err(StrokeError::InvalidContact)
        } else {
            match active {
                None => Err(StrokeError::PathNotActive),
                Some(contact) => if contact.equals(from) {
                    Ok(Some(to))
                } else {
                    Err(StrokeError::DiscontinuousPath)
                },
            }
        },
        RoundPathCommand::End { at, elapsed_micros } => if !at.valid() {
            Err(StrokeError::InvalidContact)
        } else {
            match active {
                None => Err(StrokeError::PathNotActive),
                Some(contact) => if contact.equals(at) {
                    Ok(None)
                } else {
                    Err(StrokeError::DiscontinuousPath)
                },
            }
        },
    }
}

/// The contact that a path has reached after all commands.
pub open spec fn path_run(active: Option<RoundContact>, commands: Seq<RoundPathCommand>) -> Result<
    Option<RoundContact>,
    StrokeError,
>
    decreases commands.len(),
{
    if commands.len() == 0 {
        Ok(active)
    } else {
        match path_run(active, commands.drop_last()) {
            Ok(reached) => path_step(reached, commands.last()),
            Err(error) => Err(error),
        }
    }
}

pub proof fn lemma_path_fails(
    active: Option<RoundContact>,
    commands: Seq<RoundPathCommand>,
    n: int,
)
    requires
        0 <= n <= commands.len(),
        path_run(active, commands.subrange(0, n)) is Err,
    ensures
        path_run(active, commands) == path_run(active, commands.subrange(0, n)),
    decreases commands.len() - n,
{
    if n < commands.len() {
        assert(commands.subrange(0, n + 1).drop_last() =~= commands.subrange(0, n));
        lemma_path_fails(active, commands, n + 1);
    } else {
        assert(commands.subrange(0, n) =~= commands);
    }
}

fn follow_command(active: Option<RoundContact>, command: RoundPathCommand) -> (reached: Result<
    Option<RoundContact>,
    StrokeError,
>)
    ensures
        reached == path_step(active, command),
{
    match command {
        RoundPathCommand::Begin(contact) => {
            if active.is_some() {
                return Err(StrokeError::PathAlreadyActive);
            }
            if !contact.is_valid() {
                return Err(StrokeError::InvalidContact);
            }
            Ok(Some(contact))
        },
        RoundPathCommand::Sweep { from, to } => {
            if !from.is_valid() || !to.is_valid() {
                return Err(StrokeError::InvalidContact);
            }
            match active {
                None => Err(StrokeError::PathNotActive),
                Some(contact) => if contact.same(from) {
                    Ok(Some(to))
                } else {
                    Err(StrokeError::DiscontinuousPath)
                },
            }
        },
        RoundPathCommand::End { at, elapsed_micros: _ } => {
            if !at.is_valid() {
                return Err(StrokeError::InvalidContact);
            }
            match active {
                None => Err(StrokeError::PathNotActive),
                Some(contact) => if contact.same(at) {
                    Ok(None)
                } else {
                    Err(StrokeError::DiscontinuousPath)
                },
            }
        },
    }
}

/// Walks along a path.
pub fn follow_path(active: Option<RoundContact>, commands: &Vec<RoundPathCommand>) -> (reached:
    Result<Option<RoundContact>, StrokeError>)
    ensures
        reached == path_run(active, commands@),
{
    let mut reached = active;
    let mut i: usize = 0;
    assert(commands@.subrange(0, 0) =~= Seq::<RoundPathCommand>::empty());
    while i < commands.len()
        invariant
            i <= commands@.len(),
            path_run(active, commands@.subrange(0, i as int)) == Ok::<
                Option<RoundContact>,
                StrokeError,
            >(reached),
        decreases commands@.len() - i,
    {
        proof {
            let prefix = commands@.subrange(0, i as int + 1);
            assert(prefix.drop_last() =~= commands@.subrange(0, i as int));
            assert(prefix.last() == commands@[i as int]);
        }
        match follow_command(reached, commands[i]) {
            Ok(next) => {
                reached = next;
            },
            Err(error) => {
                proof {
                    lemma_path_fails(active, commands@, i as int + 1);
                }
                return Err(error);
            },
        }
        i += 1;
    }
    assert(commands@.subrange(0, i as int) =~= commands@);
    Ok(reached)
}

} // verus!
