//! The end of a round stroke: it becomes a revision of the document.

use crate::device::DeviceLimits;
use crate::document::LayerId;
use crate::gpu_atlas::{AtlasAllocation, AtlasLayout, AtlasSlot, LayerTileKey};
use crate::gpu_document_target::{
    commit_kept, commit_token_error, commit_undone, undo_commit_reported, CommitPageEncoding,
    EncodedGpuDocumentCommit, GpuDocumentTarget, GpuDocumentTargetError, TargetModel,
};
use crate::gpu_document_undo::{capture_planned, GpuUndoCapturePlan, GpuUndoPlanError};
use crate::gpu_material::{all_copies, refreshed, MaterialCopy, SurfaceModel, SurfaceRefresh};
use crate::gpu_material_commit::{copy_commit_reported, copy_tiles};
use crate::gpu_recovery_replay::GpuRasterRecoveryCommand;
use crate::gpu_resident_commit::{
    commit_prepared, commit_recorded, commit_reported, prepare_error, submit_error,
    GpuResidentDocumentCommit,
};
use crate::gpu_resident_document::{GpuResidentDocument, GpuResidentRoundStrokeId, ResidentModel};
use crate::gpu_resident_metadata::{candidate_layers, reclaimed};
use crate::gpu_resident_round_stroke::{
    abandon_reported, copy_allocations, released, ActiveRoundStroke, EngineModel,
    GpuResidentRoundStrokeEngine, GpuResidentRoundStrokeError, StrokeModel,
};
use crate::gpu_round_recovery::{
    round_build_error, GpuRoundRecoveryCommand, RoundCommandModel,
};
use crate::gpu_round_target::{active_list, ActiveRoundMaskTile, RoundMaskTargetError};
use crate::keyed_map::{value_of, KeyedMap};
use crate::raster::TileCoord;
use crate::stroke::RoundPathCommand;
use vstd::pervasive::unreached;
use vstd::prelude::*;

verus! {

/// A stroke that became a revision, and what the device has to do for it.
#[derive(Debug)]
pub struct GpuResidentRoundCommit {
    pub commit: GpuResidentDocumentCommit,
    pub work: RoundCommitWork,
}

/// What the device has to do for a commit.
#[derive(Debug)]
pub struct RoundCommitWork {
    pub refresh: Option<SurfaceRefresh>,
    pub copies: Vec<MaterialCopy>,
    pub pages: Vec<CommitPageEncoding>,
    pub slots: Vec<AtlasSlot>,
}

/// How many pages the mask of a broad contact has at least.
pub const BROAD_CONTACT_PAGES: usize = 8;

/// What has to be done before a commit.
#[derive(Debug)]
pub struct CommitSurface {
    pub refresh: Option<SurfaceRefresh>,
    /// Whether the device has to have drawn the surface before the commit goes on.
    pub wait: bool,
}

/// Whether the pixels of a stroke can only be had from the device.
pub open spec fn awaits_pixels(stroke: StrokeModel) -> bool {
    stroke.shader_brush || stroke.material_surface
}

/// The command that recovers a stroke.
pub open(crate) spec fn stroke_command(stroke: StrokeModel, command: GpuRasterRecoveryCommand) -> bool {
    &&& command.wf()
    &&& if awaits_pixels(stroke) {
        command == GpuRasterRecoveryCommand::AwaitingPixels(stroke.scheduler.layer)
    } else {
        command matches GpuRasterRecoveryCommand::Round(round) && round@ == (RoundCommandModel {
            layer: stroke.scheduler.layer,
            recipe: stroke.recipe,
            commands: stroke.commands,
        })
    }
}

impl EngineModel {
    /// Why the stroke cannot be committed at all, if it cannot.
    pub open spec fn commit_error(self, document: ResidentModel, target: TargetModel) -> Option<
        GpuResidentRoundStrokeError,
    > {
        match self.active {
            None => Some(GpuResidentRoundStrokeError::NoActiveStroke),
            Some(stroke) => if let Some(error) = document.stroke_error(Some(stroke.id)) {
                Some(GpuResidentRoundStrokeError::Resident(error))
            } else if let Some(error) = self.place_error(document, target) {
                Some(error)
            } else if stroke.scheduler.active is Some {
                Some(GpuResidentRoundStrokeError::PathStillActive)
            } else if awaits_pixels(stroke) {
                None
            } else {
                match round_build_error(stroke.recipe, stroke.commands) {
                    Some(error) => Some(GpuResidentRoundStrokeError::Recovery(error)),
                    None => None,
                }
            },
        }
    }
}

/// The surface that a commit copies from is up to date.
pub open(crate) spec fn surface_ready(
    engine: EngineModel,
    stroke: StrokeModel,
    document: ResidentModel,
    target: TargetModel,
    refresh: Option<SurfaceRefresh>,
    surface: SurfaceModel,
) -> bool {
    if stroke.material_surface {
        refresh matches Some(refresh) && refreshed(
            engine.surface,
            document.layout@,
            document.places,
            target,
            engine.used(stroke.loaded),
            stroke.recipe@.material.operation,
            stroke.loaded,
            refresh,
            surface,
        )
    } else {
        refresh is None && surface == engine.surface
    }
}

/// The engine whose stroke takes no more commands. The pages of loaded paint are given up:
/// the surface has taken what they held.
pub open spec fn stroke_ended(engine: EngineModel, loaded: bool) -> EngineModel {
    let ended = engine.ended(loaded);
    if loaded {
        EngineModel { deposition: released(ended.deposition), ..ended }
    } else {
        ended
    }
}

/// What comes of a stroke whose commit the device has encoded, or not.
pub open(crate) spec fn finish_reported(
    engine: EngineModel,
    stroke: StrokeModel,
    document: ResidentModel,
    target: TargetModel,
    limits: DeviceLimits,
    encoded: Result<Option<EncodedGpuDocumentCommit>, GpuDocumentTargetError>,
    result: Result<Option<GpuResidentDocumentCommit>, GpuResidentRoundStrokeError>,
    engine_after: EngineModel,
    document_after: ResidentModel,
    target_after: TargetModel,
) -> bool {
    match encoded {
        Ok(None) => target_after == target && abandoned_with(
            engine,
            stroke,
            document,
            Ok(None),
            result,
            engine_after,
            document_after,
        ),
        Err(error) => target_after == target && abandoned_with(
            engine,
            stroke,
            document,
            Err(GpuResidentRoundStrokeError::Target(error)),
            result,
            engine_after,
            document_after,
        ),
        Ok(Some(encoded)) => exists|command: GpuRasterRecoveryCommand|
            {
                &&& #[trigger] stroke_command(stroke, command)
                &&& match prepare_error(
                    document,
                    Some(stroke.id),
                    target,
                    limits,
                    encoded@,
                    command,
                ) {
                    Some(error) => match commit_token_error(
                        target,
                        encoded@.target_id,
                        encoded@.serial,
                    ) {
                        Some(refusal) => {
                            &&& result matches Err(found) && found
                                == GpuResidentRoundStrokeError::Target(refusal)
                            &&& engine_after == engine
                            &&& document_after == document
                            &&& target_after == target
                        },
                        None => target_after == commit_undone(target) && abandoned_with(
                            engine,
                            stroke,
                            document,
                            Err(GpuResidentRoundStrokeError::Resident(error)),
                            result,
                            engine_after,
                            document_after,
                        ),
                    },
                    None => {
                        &&& result matches Ok(Some(commit))
                        &&& commit.stats == encoded@.stats
                        &&& target_after == commit_kept(target)
                        &&& engine_after == engine.finished()
                        &&& document_after.stroke is None
                        &&& commit_reported(
                            document,
                            commit_prepared(document, encoded@, command),
                            commit@,
                            ResidentModel { stroke: document.stroke, ..document_after },
                        )
                    },
                }
            },
    }
}

/// What comes of giving up a stroke for a reason.
pub open(crate) spec fn abandoned_with(
    engine: EngineModel,
    stroke: StrokeModel,
    document: ResidentModel,
    reason: Result<Option<GpuResidentDocumentCommit>, GpuResidentRoundStrokeError>,
    result: Result<Option<GpuResidentDocumentCommit>, GpuResidentRoundStrokeError>,
    engine_after: EngineModel,
    document_after: ResidentModel,
) -> bool {
    exists|abandoned: Result<(), GpuResidentRoundStrokeError>|
        {
            &&& #[trigger] abandon_reported(
                engine,
                document,
                stroke.id,
                stroke.provisional,
                abandoned,
                engine_after,
                document_after,
            )
            &&& match abandoned {
                Ok(_) => result == reason,
                Err(error) => result matches Err(found) && found == error,
            }
        }
}

/// What the device encodes for a commit.
pub open(crate) spec fn encode_reported(
    engine: EngineModel,
    stroke: StrokeModel,
    document: ResidentModel,
    target: TargetModel,
    encoded: Result<Option<EncodedGpuDocumentCommit>, GpuDocumentTargetError>,
    work: RoundCommitWork,
    target_after: TargetModel,
) -> bool {
    if stroke.material_surface {
        let copies = all_copies(document.layout@, document.places, engine.surface.tiles);
        &&& work.copies@ == copies
        &&& work.pages@.len() == 0
        &&& work.slots@.len() == 0
        &&& copy_commit_reported(target, copy_tiles(copies), encoded, target_after)
    } else {
        &&& work.copies@.len() == 0
        &&& exists|
            commit: Result<
                Option<(EncodedGpuDocumentCommit, Vec<CommitPageEncoding>, Vec<AtlasSlot>)>,
                GpuDocumentTargetError,
            >,
        |
            {
                &&& #[trigger] undo_commit_reported(
                    target,
                    engine.used(stroke.loaded),
                    stroke.recipe@.material,
                    commit,
                    target_after,
                )
                &&& match (commit, encoded) {
                    (Ok(Some((first, pages, slots))), Ok(Some(second))) => {
                        &&& first == second
                        &&& work.pages == pages
                        &&& work.slots == slots
                    },
                    (Ok(None), Ok(None)) => true,
                    (Err(first), Err(second)) => first == second,
                    _ => false,
                }
            }
    }
}

pub open(crate) spec fn commit_of(
    result: Result<Option<GpuResidentRoundCommit>, GpuResidentRoundStrokeError>,
) -> Result<Option<GpuResidentDocumentCommit>, GpuResidentRoundStrokeError> {
    match result {
        Ok(Some(commit)) => Ok(Some(commit.commit)),
        Ok(None) => Ok(None),
        Err(error) => Err(error),
    }
}

/// What comes of committing a stroke for which nothing stands in the way at first.
pub open(crate) spec fn stroke_committed(
    engine: EngineModel,
    document: ResidentModel,
    target: TargetModel,
    limits: DeviceLimits,
    result: Result<Option<GpuResidentRoundCommit>, GpuResidentRoundStrokeError>,
    engine_after: EngineModel,
    document_after: ResidentModel,
    target_after: TargetModel,
) -> bool {
    let stroke = engine.active->0;
    exists|refresh: Option<SurfaceRefresh>, surface: SurfaceModel|
        {
            &&& #[trigger] surface_ready(engine, stroke, document, target, refresh, surface)
            &&& if !engine.used(stroke.loaded).active {
                &&& result matches Err(error) && error == GpuResidentRoundStrokeError::Mask(
                    RoundMaskTargetError::StrokeNotActive,
                )
                &&& engine_after == (EngineModel { surface, ..engine })
                &&& document_after == document
                &&& target_after == target
            } else {
                encoded_and_finished(
                    stroke_ended(EngineModel { surface, ..engine }, stroke.loaded),
                    stroke,
                    document,
                    target,
                    limits,
                    refresh,
                    result,
                    engine_after,
                    document_after,
                    target_after,
                )
            }
        }
}

pub open(crate) spec fn encoded_and_finished(
    engine: EngineModel,
    stroke: StrokeModel,
    document: ResidentModel,
    target: TargetModel,
    limits: DeviceLimits,
    refresh: Option<SurfaceRefresh>,
    result: Result<Option<GpuResidentRoundCommit>, GpuResidentRoundStrokeError>,
    engine_after: EngineModel,
    document_after: ResidentModel,
    target_after: TargetModel,
) -> bool {
    exists|
        encoded: Result<Option<EncodedGpuDocumentCommit>, GpuDocumentTargetError>,
        work: RoundCommitWork,
        middle: TargetModel,
    |
        {
            &&& #[trigger] encode_reported(
                engine,
                stroke,
                document,
                target,
                encoded,
                work,
                middle,
            )
            &&& work.refresh == refresh
            &&& result matches Ok(Some(commit)) ==> commit.work == work
            &&& finish_reported(
                engine,
                stroke,
                document,
                middle,
                limits,
                encoded,
                commit_of(result),
                engine_after,
                document_after,
                target_after,
            )
        }
}

/// Giving up layers does not end a stroke.
proof fn lemma_reclaim_keeps_stroke(model: ResidentModel, layers: Seq<LayerId>)
    ensures
        (reclaimed(model, layers).0).stroke == model.stroke,
    decreases layers.len(),
{
    if layers.len() > 0 {
        lemma_reclaim_keeps_stroke(model, layers.drop_last());
    }
}

/// What was just prepared can be handed to the device.
proof fn lemma_prepared_submits(
    document: ResidentModel,
    stroke: Option<GpuResidentRoundStrokeId>,
    target: TargetModel,
    limits: DeviceLimits,
    encoded: crate::gpu_document_target::EncodedCommitModel,
    command: GpuRasterRecoveryCommand,
)
    requires
        document.valid(),
        prepare_error(document, stroke, target, limits, encoded, command) is None,
    ensures
        submit_error(document, target, commit_prepared(document, encoded, command)) is None,
{
}

fn copy_commands(commands: &Vec<RoundPathCommand>) -> (copy: Vec<RoundPathCommand>)
    ensures
        copy@ == commands@,
{
    let mut copy: Vec<RoundPathCommand> = Vec::new();
    let mut i: usize = 0;
    while i < commands.len()
        invariant
            i <= commands@.len(),
            copy@ == commands@.subrange(0, i as int),
        decreases commands@.len() - i,
    {
        copy.push(commands[i]);
        i += 1;
        assert(copy@ =~= commands@.subrange(0, i as int));
    }
    assert(copy@ =~= commands@);
    copy
}

fn recovery_command(active: &ActiveRoundStroke) -> (command: Result<
    GpuRasterRecoveryCommand,
    GpuResidentRoundStrokeError,
>)
    ensures
        match command {
            Ok(command) => stroke_command(active@, command),
            Err(GpuResidentRoundStrokeError::Recovery(error)) => !awaits_pixels(active@)
                && round_build_error(active@.recipe, active@.commands) == Some(error),
            Err(_) => false,
        },
        command is Ok ==> awaits_pixels(active@) || round_build_error(
            active@.recipe,
            active@.commands,
        ) is None,
{
    if active.shader_brush || active.material_surface {
        return Ok(GpuRasterRecoveryCommand::AwaitingPixels(active.scheduler.layer()));
    }
    match GpuRoundRecoveryCommand::new(
        active.scheduler.layer(),
        active.recipe,
        copy_commands(&active.commands),
    ) {
        Ok(command) => Ok(GpuRasterRecoveryCommand::Round(command)),
        Err(failure) => {
            let failure = *failure;
            Err(GpuResidentRoundStrokeError::Recovery(failure.error))
        },
    }
}

impl GpuResidentRoundStrokeEngine {
    /// Brings the surface of the stroke in progress up to date, where it is shown with
    /// relief.
    pub fn prepare_composite(
        &mut self,
        document: &GpuResidentDocument,
        target: &GpuDocumentTarget,
    ) -> (refresh: Result<Option<SurfaceRefresh>, GpuResidentRoundStrokeError>)
        requires
            old(self).wf(),
            document.wf(),
            target.wf(),
        ensures
            final(self).wf(),
            match refresh {
                Ok(refresh) => {
                    &&& old(self)@.active matches Some(stroke)
                    &&& document@.stroke_error(Some(stroke.id)) is None
                    &&& old(self)@.place_error(document@, target@) is None
                    &&& surface_ready(
                        old(self)@,
                        stroke,
                        document@,
                        target@,
                        refresh,
                        final(self)@.surface,
                    )
                    &&& final(self)@ == (EngineModel {
                        surface: final(self)@.surface,
                        ..old(self)@
                    })
                },
                Err(error) => {
                    &&& final(self)@ == old(self)@
                    &&& match old(self)@.active {
                        None => error == GpuResidentRoundStrokeError::NoActiveStroke,
                        Some(stroke) => match document@.stroke_error(Some(stroke.id)) {
                            Some(expected) => error == GpuResidentRoundStrokeError::Resident(
                                expected,
                            ),
                            None => old(self)@.place_error(document@, target@) == Some(error),
                        },
                    }
                },
            },
    {
        let id = match &self.active {
            None => {
                return Err(GpuResidentRoundStrokeError::NoActiveStroke);
            },
            Some(active) => active.id,
        };
        match document.check_active_round_stroke(Some(id)) {
            Ok(_) => {},
            Err(error) => {
                return Err(GpuResidentRoundStrokeError::Resident(error));
            },
        }
        match self.check_target(document, target) {
            Ok(_) => {},
            Err(error) => {
                return Err(error);
            },
        }
        Ok(self.refresh_surface(document, target))
    }

    /// Whether the stroke in progress can be committed, and the command that recovers it.
    fn check_commit(&self, document: &GpuResidentDocument, target: &GpuDocumentTarget) -> (command:
        Result<GpuRasterRecoveryCommand, GpuResidentRoundStrokeError>)
        requires
            self.wf(),
            document.wf(),
        ensures
            match command {
                Ok(command) => {
                    &&& self@.commit_error(document@, target@) is None
                    &&& self@.active matches Some(stroke) && stroke_command(stroke, command)
                },
                Err(error) => self@.commit_error(document@, target@) == Some(error),
            },
    {
        let id = match &self.active {
            None => {
                return Err(GpuResidentRoundStrokeError::NoActiveStroke);
            },
            Some(active) => active.id,
        };
        match document.check_active_round_stroke(Some(id)) {
            Ok(_) => {},
            Err(error) => {
                return Err(GpuResidentRoundStrokeError::Resident(error));
            },
        }
        match self.check_target(document, target) {
            Ok(_) => {},
            Err(error) => {
                return Err(error);
            },
        }
        match &self.active {
            None => unreached(),
            Some(active) => {
                if active.scheduler.is_active() {
                    return Err(GpuResidentRoundStrokeError::PathStillActive);
                }
                recovery_command(active)
            },
        }
    }

    /// Brings the surface that a commit copies from up to date, and says whether the device has to
    /// be waited for before the commit: a broad contact finishes its surface before room is taken
    /// for what undo and the mirror keep.
    pub fn prepare_commit_surface(
        &mut self,
        document: &GpuResidentDocument,
        target: &GpuDocumentTarget,
    ) -> (prepared: Result<CommitSurface, GpuResidentRoundStrokeError>)
        requires
            old(self).wf(),
            document.wf(),
            target.wf(),
        ensures
            final(self).wf(),
            ({
                let engine = EngineModel { submissions: 0, ..old(self)@ };
                match engine.commit_error(document@, target@) {
                    Some(expected) => {
                        &&& prepared matches Err(error) && error == expected
                        &&& final(self)@ == engine
                    },
                    None => {
                        let stroke = engine.active->0;
                        &&& prepared matches Ok(prepared)
                        &&& surface_ready(
                            engine,
                            stroke,
                            document@,
                            target@,
                            prepared.refresh,
                            final(self)@.surface,
                        )
                        &&& prepared.wait == (stroke.material_surface && engine.used(
                            stroke.loaded,
                        ).pages >= BROAD_CONTACT_PAGES)
                        &&& final(self)@ == (EngineModel {
                            surface: final(self)@.surface,
                            ..engine
                        })
                    },
                }
            }),
    {
        self.material_submissions = 0;
        match self.check_commit(document, target) {
            Ok(_) => {},
            Err(error) => {
                return Err(error);
            },
        }
        let refresh = self.refresh_surface(document, target);
        let wait = match &self.active {
            None => false,
            Some(active) => active.material_surface && (if active.loaded {
                self.deposition.retained_page_count()
            } else {
                self.mask.retained_page_count()
            }) >= BROAD_CONTACT_PAGES,
        };
        Ok(CommitSurface { refresh, wait })
    }

    fn refresh_surface(&mut self, document: &GpuResidentDocument, target: &GpuDocumentTarget) -> (
    refresh: Option<SurfaceRefresh>)
        requires
            old(self).wf(),
            old(self)@.active is Some,
            document.wf(),
            target.wf(),
        ensures
            final(self).wf(),
            final(self)@ == (EngineModel { surface: final(self)@.surface, ..old(self)@ }),
            surface_ready(
                old(self)@,
                old(self)@.active->0,
                document@,
                target@,
                refresh,
                final(self)@.surface,
            ),
    {
        let (material_surface, loaded, operation) = match &self.active {
            Some(active) => (
                active.material_surface,
                active.loaded,
                active.recipe.material().operation(),
            ),
            None => unreached(),
        };
        if !material_surface {
            return None;
        }
        if loaded {
            Some(
                self.surface.refresh(
                    &document.atlas,
                    target,
                    &self.deposition,
                    operation,
                    loaded,
                ),
            )
        } else {
            Some(self.surface.refresh(&document.atlas, target, &self.mask, operation, loaded))
        }
    }

    /// Makes the stroke in progress the next revision of the document. A stroke that left
    /// no trace is given up.
    #[verifier::spinoff_prover]
    #[verifier::rlimit(60)]
    pub fn commit(
        &mut self,
        document: &mut GpuResidentDocument,
        target: &mut GpuDocumentTarget,
        limits: DeviceLimits,
    ) -> (committed: Result<Option<GpuResidentRoundCommit>, GpuResidentRoundStrokeError>)
        requires
            old(self).wf(),
            old(document).wf(),
            old(target).wf(),
        ensures
            final(self).wf(),
            final(document).wf(),
            final(target).wf(),
            ({
                let engine = EngineModel { submissions: 0, ..old(self)@ };
                match engine.commit_error(old(document)@, old(target)@) {
                    Some(expected) => {
                        &&& committed matches Err(error) && error == expected
                        &&& final(self)@ == engine
                        &&& final(document)@ == old(document)@
                        &&& final(target)@ == old(target)@
                    },
                    None => stroke_committed(
                        engine,
                        old(document)@,
                        old(target)@,
                        limits,
                        committed,
                        final(self)@,
                        final(document)@,
                        final(target)@,
                    ),
                }
            }),
    {
        self.material_submissions = 0;
        let ghost engine = self@;
        let command = match self.check_commit(document, target) {
            Ok(command) => command,
            Err(error) => {
                return Err(error);
            },
        };
        let ghost stroke = engine.active->0;
        let (id, loaded, material_surface, material, allocations) = match &self.active {
            None => unreached(),
            Some(active) => (
                active.id,
                active.loaded,
                active.material_surface,
                active.recipe.material(),
                copy_allocations(&active.provisional_allocations),
            ),
        };
        let refresh = self.refresh_surface(document, target);
        let ghost shown = refresh;
        let ghost surface = self@.surface;
        assert(surface_ready(engine, stroke, document@, target@, shown, surface));
        let ended = if loaded {
            self.deposition.end_stroke()
        } else {
            self.mask.end_stroke()
        };
        match ended {
            Ok(_) => {},
            Err(error) => {
                return Err(GpuResidentRoundStrokeError::Mask(error));
            },
        }
        if loaded {
            self.deposition.release_material_pages();
        }
        let ghost quiet = self@;
        assert(quiet == stroke_ended(EngineModel { surface, ..engine }, loaded));
        let ghost before = target@;
        let mut copies: Vec<MaterialCopy> = Vec::new();
        let mut pages: Vec<CommitPageEncoding> = Vec::new();
        let mut slots: Vec<AtlasSlot> = Vec::new();
        let encoded = if material_surface {
            copies = self.surface.copies(&document.atlas);
            target.encode_material_commit(&copies)
        } else {
            let encoded = if loaded {
                target.encode_full_flow_commit_with_undo(&self.deposition, material)
            } else {
                target.encode_full_flow_commit_with_undo(&self.mask, material)
            };
            let ghost told = encoded;
            assert(undo_commit_reported(
                before,
                quiet.used(loaded),
                stroke.recipe@.material,
                told,
                target@,
            ));
            match encoded {
                Ok(Some((commit, drawn, cleared))) => {
                    pages = drawn;
                    slots = cleared;
                    Ok(Some(commit))
                },
                Ok(None) => Ok(None),
                Err(error) => Err(error),
            }
        };
        let work = RoundCommitWork { refresh, copies, pages, slots };
        let ghost outcome = encoded;
        let ghost middle = target@;
        let ghost plan = work;
        assert(encode_reported(quiet, stroke, document@, before, outcome, plan, middle));
        let finished = self.finish_commit(
            document,
            target,
            limits,
            id,
            &allocations,
            command,
            encoded,
        );
        match finished {
            Ok(Some(commit)) => Ok(Some(GpuResidentRoundCommit { commit, work })),
            Ok(None) => Ok(None),
            Err(error) => Err(error),
        }
    }

    fn finish_commit(
        &mut self,
        document: &mut GpuResidentDocument,
        target: &mut GpuDocumentTarget,
        limits: DeviceLimits,
        id: GpuResidentRoundStrokeId,
        allocations: &Vec<AtlasAllocation>,
        command: GpuRasterRecoveryCommand,
        encoded: Result<Option<EncodedGpuDocumentCommit>, GpuDocumentTargetError>,
    ) -> (committed: Result<Option<GpuResidentDocumentCommit>, GpuResidentRoundStrokeError>)
        requires
            old(self).wf(),
            !old(self)@.mask.active,
            !old(self)@.deposition.active,
            old(self)@.active is Some,
            id == old(self)@.active->0.id,
            allocations@ == old(self)@.active->0.provisional,
            old(document).wf(),
            old(target).wf(),
            stroke_command(old(self)@.active->0, command),
            encoded matches Ok(Some(commit)) ==> commit.wf(),
        ensures
            final(self).wf(),
            final(document).wf(),
            final(target).wf(),
            finish_reported(
                old(self)@,
                old(self)@.active->0,
                old(document)@,
                old(target)@,
                limits,
                encoded,
                committed,
                final(self)@,
                final(document)@,
                final(target)@,
            ),
    {
        let ghost engine = self@;
        let ghost stroke = engine.active->0;
        let ghost before = document@;
        let encoded = match encoded {
            Ok(Some(encoded)) => encoded,
            Ok(None) => {
                return match self.abandon_ended(document, id, allocations) {
                    Ok(_) => Ok(None),
                    Err(error) => Err(error),
                };
            },
            Err(error) => {
                return match self.abandon_ended(document, id, allocations) {
                    Ok(_) => Err(GpuResidentRoundStrokeError::Target(error)),
                    Err(error) => Err(error),
                };
            },
        };
        let ghost token = encoded@;
        let prepared = match document.prepare_round_stroke_commit(
            id,
            target,
            limits,
            encoded,
            command,
        ) {
            Ok(prepared) => prepared,
            Err(failure) => {
                let failure = *failure;
                match target.commit_discarded_with_memento(failure.encoded) {
                    Ok(_) => {},
                    Err(error) => {
                        return Err(GpuResidentRoundStrokeError::Target(error));
                    },
                }
                let cause = failure.error;
                return match self.abandon_ended(document, id, allocations) {
                    Ok(_) => Err(GpuResidentRoundStrokeError::Resident(cause)),
                    Err(error) => Err(error),
                };
            },
        };
        proof {
            lemma_prepared_submits(before, Some(id), target@, limits, token, command);
        }
        let commit = match document.submit_commit(target, prepared) {
            Ok(commit) => commit,
            Err(_) => unreached(),
        };
        proof {
            let ready = commit_prepared(before, token, command);
            let evicted = before.history.evicted(ready.encoded.memento.plan.byte_len);
            let layers = choose|layers: Seq<LayerId>| #[trigger]
                candidate_layers(evicted, layers) && reclaimed(
                    commit_recorded(before, ready),
                    layers,
                ) == (document@, commit@.reclamation);
            lemma_reclaim_keeps_stroke(commit_recorded(before, ready), layers);
        }
        let ghost after = document@;
        match document.finish_round_stroke(id) {
            Ok(_) => {},
            Err(_) => unreached(),
        }
        assert((ResidentModel { stroke: before.stroke, ..document@ }) == after);
        self.release();
        Ok(Some(commit))
    }
}

/// The tiles of a stroke that have relief, each with the place of its relief.
pub open spec fn relief_tiles(
    slots: Map<TileCoord, AtlasSlot>,
    tiles: Seq<ActiveRoundMaskTile>,
    n: int,
) -> Seq<ActiveRoundMaskTile>
    decreases n,
{
    if n <= 0 {
        Seq::empty()
    } else {
        let rest = relief_tiles(slots, tiles, n - 1);
        let tile = tiles[n - 1];
        match value_of(slots, tile.key.tile) {
            Some(slot) => rest.push(
                ActiveRoundMaskTile {
                    key: LayerTileKey {
                        layer: tile.key.layer.spec_material_plane(),
                        tile: tile.key.tile,
                    },
                    slot,
                    local_damage: tile.local_damage,
                },
            ),
            None => rest,
        }
    }
}

/// The tiles that a commit of the stroke changes.
pub open spec fn commit_tiles(stroke: StrokeModel, tiles: Seq<ActiveRoundMaskTile>) -> Seq<
    ActiveRoundMaskTile,
> {
    if stroke.material_surface {
        tiles + relief_tiles(stroke.material_slots, tiles, tiles.len() as int)
    } else {
        tiles
    }
}

/// How many bytes a commit of the stroke keeps for undo.
pub open spec fn snapshot_bytes(
    layout: AtlasLayout,
    tiles: Seq<ActiveRoundMaskTile>,
    bytes: Result<u64, GpuUndoPlanError>,
) -> bool {
    if tiles.len() == 0 {
        bytes == Ok::<u64, GpuUndoPlanError>(0)
    } else {
        match bytes {
            Ok(bytes) => exists|plan: GpuUndoCapturePlan| #[trigger]
                capture_planned(layout, tiles, Ok(plan)) && bytes == plan@.byte_len,
            Err(error) => capture_planned(layout, tiles, Err(error)),
        }
    }
}

fn list_relief(
    slots: &KeyedMap<TileCoord, AtlasSlot>,
    tiles: &Vec<ActiveRoundMaskTile>,
) -> (relief: Vec<ActiveRoundMaskTile>)
    requires
        slots.wf(),
    ensures
        relief@ == relief_tiles(slots@, tiles@, tiles@.len() as int),
{
    let mut relief: Vec<ActiveRoundMaskTile> = Vec::new();
    let mut i: usize = 0;
    while i < tiles.len()
        invariant
            slots.wf(),
            i <= tiles@.len(),
            relief@ == relief_tiles(slots@, tiles@, i as int),
        decreases tiles@.len() - i,
    {
        let tile = tiles[i];
        if let Some(slot) = slots.get(tile.key.tile) {
            relief.push(
                ActiveRoundMaskTile {
                    key: LayerTileKey::new(tile.key.layer.material_plane(), tile.key.tile),
                    slot: *slot,
                    local_damage: tile.local_damage,
                },
            );
        }
        i += 1;
    }
    relief
}

impl GpuResidentRoundStrokeEngine {
    /// How many bytes a commit of the stroke in progress would keep for undo.
    pub fn commit_snapshot_bytes(&self) -> (bytes: Result<u64, GpuUndoPlanError>)
        requires
            self.wf(),
        ensures
            match self@.active {
                None => bytes == Ok::<u64, GpuUndoPlanError>(0),
                Some(stroke) => exists|tiles: Seq<ActiveRoundMaskTile>| #[trigger]
                    active_list(self@.used(stroke.loaded).active_tiles, tiles) && snapshot_bytes(
                        self@.layout,
                        commit_tiles(stroke, tiles),
                        bytes,
                    ),
            },
    {
        let active = match &self.active {
            Some(active) => active,
            None => {
                return Ok(0);
            },
        };
        let mut tiles = if active.loaded {
            self.deposition.active_tiles()
        } else {
            self.mask.active_tiles()
        };
        let ghost listed = tiles@;
        assert(active_list(self@.used(active@.loaded).active_tiles, listed));
        if active.material_surface {
            let mut relief = list_relief(&active.material_slots, &tiles);
            tiles.append(&mut relief);
        }
        assert(tiles@ =~= commit_tiles(active@, listed));
        if tiles.len() == 0 {
            return Ok(0);
        }
        match GpuUndoCapturePlan::from_active_tiles(self.layout, &tiles) {
            Ok(plan) => {
                let ghost found = plan;
                assert(capture_planned(self@.layout, tiles@, Ok(found)));
                Ok(plan.byte_len())
            },
            Err(error) => Err(error),
        }
    }
}

} // verus!
