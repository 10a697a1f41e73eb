//! The engine that draws round strokes on a resident document.

use crate::device::DeviceLimits;
use crate::gpu_atlas::{AtlasAllocation, AtlasLayout, AtlasSlot};
use crate::gpu_document_target::{
    GpuDocumentTarget, GpuDocumentTargetError, GpuDocumentTargetId, TargetModel,
};
use crate::gpu_material::{later_generation, MaterialTarget, SurfaceModel};
use crate::gpu_resident_document::{
    GpuResidentDocument, GpuResidentDocumentError, GpuResidentRoundStrokeId, ResidentModel,
};
use crate::gpu_resident_strokes::places_rolled_back;
use crate::gpu_round::{RoundCanvas, RoundMaskError, RoundMaskScheduler, SchedulerModel};
use crate::gpu_round_recovery::GpuRoundRecoveryBuildError;
use crate::gpu_round_target::{
    RoundMaskTarget, RoundMaskTargetError, RoundMaskTargetStats, RoundTargetModel,
};
use crate::keyed_map::KeyedMap;
use crate::raster::TileCoord;
use crate::stroke::{
    is_finite, RoundBrushRecipeV1, RoundPathCommand, StrokeAccumulation, ONE_BITS,
};
use vstd::pervasive::unreached;
use vstd::prelude::*;

verus! {

/// How many submissions of loaded paint may be on their way to the device at once.
pub const MATERIAL_SUBMISSIONS: usize = 4;

/// The bits of the least and the greatest load of a brush.
pub const LEAST_LOAD_BITS: u32 = 0x3d4c_cccd;

pub const GREATEST_LOAD_BITS: u32 = 0x4080_0000;

#[derive(Debug)]
pub enum GpuResidentRoundStrokeError {
    StrokeAlreadyActive,
    NoActiveStroke,
    NoEffect,
    UnsupportedFlow(u32),
    InvalidPaintLoad(u32),
    PathStillActive,
    MaskBatchAwaitingSubmission,
    TargetBusy,
    TargetMismatch { expected: GpuDocumentTargetId, actual: GpuDocumentTargetId },
    LayoutMismatch,
    Round(RoundMaskError),
    Mask(RoundMaskTargetError),
    Target(GpuDocumentTargetError),
    Resident(GpuResidentDocumentError),
    Recovery(GpuRoundRecoveryBuildError),
}

impl From<RoundMaskError> for GpuResidentRoundStrokeError {
    fn from(error: RoundMaskError) -> (converted: Self) {
        GpuResidentRoundStrokeError::Round(error)
    }
}

impl vstd::std_specs::convert::FromSpecImpl<RoundMaskError> for GpuResidentRoundStrokeError {
    open spec fn obeys_from_spec() -> bool {
        true
    }

    open spec fn from_spec(error: RoundMaskError) -> Self {
        GpuResidentRoundStrokeError::Round(error)
    }
}

impl From<RoundMaskTargetError> for GpuResidentRoundStrokeError {
    fn from(error: RoundMaskTargetError) -> (converted: Self) {
        GpuResidentRoundStrokeError::Mask(error)
    }
}

impl vstd::std_specs::convert::FromSpecImpl<RoundMaskTargetError> for GpuResidentRoundStrokeError {
    open spec fn obeys_from_spec() -> bool {
        true
    }

    open spec fn from_spec(error: RoundMaskTargetError) -> Self {
        GpuResidentRoundStrokeError::Mask(error)
    }
}

impl From<GpuDocumentTargetError> for GpuResidentRoundStrokeError {
    fn from(error: GpuDocumentTargetError) -> (converted: Self) {
        GpuResidentRoundStrokeError::Target(error)
    }
}

impl vstd::std_specs::convert::FromSpecImpl<GpuDocumentTargetError> for GpuResidentRoundStrokeError {
    open spec fn obeys_from_spec() -> bool {
        true
    }

    open spec fn from_spec(error: GpuDocumentTargetError) -> Self {
        GpuResidentRoundStrokeError::Target(error)
    }
}

impl From<GpuResidentDocumentError> for GpuResidentRoundStrokeError {
    fn from(error: GpuResidentDocumentError) -> (converted: Self) {
        GpuResidentRoundStrokeError::Resident(error)
    }
}

impl vstd::std_specs::convert::FromSpecImpl<GpuResidentDocumentError> for GpuResidentRoundStrokeError {
    open spec fn obeys_from_spec() -> bool {
        true
    }

    open spec fn from_spec(error: GpuResidentDocumentError) -> Self {
        GpuResidentRoundStrokeError::Resident(error)
    }
}

/// The stroke in progress.
#[derive(Debug)]
pub(crate) struct ActiveRoundStroke {
    pub(crate) id: GpuResidentRoundStrokeId,
    pub(crate) recipe: RoundBrushRecipeV1,
    pub(crate) scheduler: RoundMaskScheduler,
    pub(crate) commands: Vec<RoundPathCommand>,
    pub(crate) provisional_allocations: Vec<AtlasAllocation>,
    pub(crate) submitted_batches: u32,
    pub(crate) shader_brush: bool,
    pub(crate) loaded: bool,
    pub(crate) material_surface: bool,
    pub(crate) load: u32,
    pub(crate) material_slots: KeyedMap<TileCoord, AtlasSlot>,
}

pub struct StrokeModel {
    pub id: GpuResidentRoundStrokeId,
    pub recipe: RoundBrushRecipeV1,
    pub scheduler: SchedulerModel,
    pub commands: Seq<RoundPathCommand>,
    pub provisional: Seq<AtlasAllocation>,
    pub submitted: u32,
    pub shader_brush: bool,
    pub loaded: bool,
    pub material_surface: bool,
    pub load: u32,
    pub material_slots: Map<TileCoord, AtlasSlot>,
}

impl View for ActiveRoundStroke {
    type V = StrokeModel;

    open(crate) spec fn view(&self) -> StrokeModel {
        StrokeModel {
            id: self.id,
            recipe: self.recipe,
            scheduler: self.scheduler@,
            commands: self.commands@,
            provisional: self.provisional_allocations@,
            submitted: self.submitted_batches,
            shader_brush: self.shader_brush,
            loaded: self.loaded,
            material_surface: self.material_surface,
            load: self.load,
            material_slots: self.material_slots@,
        }
    }
}

impl ActiveRoundStroke {
    pub(crate) open(crate) spec fn wf(self) -> bool {
        self.scheduler.wf() && self.material_slots.wf()
    }
}

#[derive(Clone, Copy, Debug, PartialEq, Eq, Structural)]
pub struct GpuResidentRoundBatchStats {
    pub commands: u32,
    pub primitives: u32,
    pub touched_tiles: u32,
    pub newly_allocated_tiles: u32,
    pub mask: RoundMaskTargetStats,
}

#[derive(Debug)]
pub struct GpuResidentRoundStrokeEngine {
    pub(crate) target_id: GpuDocumentTargetId,
    pub(crate) layout: AtlasLayout,
    pub(crate) mask: RoundMaskTarget,
    pub(crate) deposition: RoundMaskTarget,
    pub(crate) surface: MaterialTarget,
    pub(crate) active: Option<ActiveRoundStroke>,
    pub(crate) material_submissions: usize,
}

pub struct EngineModel {
    pub target_id: GpuDocumentTargetId,
    pub layout: AtlasLayout,
    pub mask: RoundTargetModel,
    pub deposition: RoundTargetModel,
    pub surface: SurfaceModel,
    pub active: Option<StrokeModel>,
    pub submissions: int,
}

impl View for GpuResidentRoundStrokeEngine {
    type V = EngineModel;

    open(crate) spec fn view(&self) -> EngineModel {
        EngineModel {
            target_id: self.target_id,
            layout: self.layout,
            mask: self.mask@,
            deposition: self.deposition@,
            surface: self.surface@,
            active: match self.active {
                Some(active) => Some(active@),
                None => None,
            },
            submissions: self.material_submissions as int,
        }
    }
}

impl EngineModel {
    /// A mask is only in use while its stroke is in progress, and no batch of it waits.
    pub open spec fn valid(self) -> bool {
        &&& self.mask.active ==> self.active is Some && !self.active->0.loaded
        &&& self.deposition.active ==> self.active is Some && self.active->0.loaded
        &&& !self.mask.pending
        &&& !self.deposition.pending
    }

    /// The mask that a stroke draws into.
    pub open spec fn used(self, loaded: bool) -> RoundTargetModel {
        if loaded {
            self.deposition
        } else {
            self.mask
        }
    }

    pub open spec fn with_used(self, loaded: bool, mask: RoundTargetModel) -> EngineModel {
        if loaded {
            EngineModel { deposition: mask, ..self }
        } else {
            EngineModel { mask, ..self }
        }
    }

    /// Why the document or the target is not that of the engine, if it is not.
    pub open spec fn place_error(self, document: ResidentModel, target: TargetModel) -> Option<
        GpuResidentRoundStrokeError,
    > {
        if document.target_id != self.target_id || target.id != self.target_id {
            Some(
                GpuResidentRoundStrokeError::TargetMismatch {
                    expected: self.target_id,
                    actual: target.id,
                },
            )
        } else if document.layout@ != self.layout@ || target.layout@ != self.layout@ {
            Some(GpuResidentRoundStrokeError::LayoutMismatch)
        } else {
            None
        }
    }

    /// Why a stroke cannot begin, if it cannot.
    pub open spec fn begin_error(
        self,
        document: ResidentModel,
        target: TargetModel,
        recipe: RoundBrushRecipeV1,
    ) -> Option<GpuResidentRoundStrokeError> {
        if self.active is Some {
            Some(GpuResidentRoundStrokeError::StrokeAlreadyActive)
        } else if let Some(error) = self.place_error(document, target) {
            Some(error)
        } else if target.pending_commit is Some || target.pending_swap is Some {
            Some(GpuResidentRoundStrokeError::TargetBusy)
        } else {
            match recipe@.material.accumulation() {
                StrokeAccumulation::NoEffect => Some(GpuResidentRoundStrokeError::NoEffect),
                StrokeAccumulation::OpticalDensity { flow } => Some(
                    GpuResidentRoundStrokeError::UnsupportedFlow(flow),
                ),
                StrokeAccumulation::CoverageUnion => match document.begin_error(
                    target,
                    document.metadata.active,
                ) {
                    Some(error) => Some(GpuResidentRoundStrokeError::Resident(error)),
                    None => None,
                },
            }
        }
    }

    /// The engine once a stroke has begun.
    pub open spec fn begun(
        self,
        document: ResidentModel,
        recipe: RoundBrushRecipeV1,
        shader_brush: bool,
        loaded: bool,
        load: u32,
    ) -> EngineModel {
        EngineModel {
            surface: SurfaceModel {
                tiles: Seq::empty(),
                dirty: Map::empty(),
                ..self.surface
            },
            active: Some(
                StrokeModel {
                    id: GpuResidentRoundStrokeId(document.next_stroke),
                    recipe,
                    scheduler: SchedulerModel {
                        canvas: RoundCanvas {
                            width: document.metadata.geometry.width,
                            height: document.metadata.geometry.height,
                            tile_size: self.layout@.tile_size,
                        },
                        layer: document.metadata.active,
                        layout: self.layout,
                        active: None,
                    },
                    commands: Seq::empty(),
                    provisional: Seq::empty(),
                    submitted: 0,
                    shader_brush,
                    loaded,
                    material_surface: false,
                    load,
                    material_slots: Map::empty(),
                },
            ),
            ..self.with_used(
                loaded,
                RoundTargetModel {
                    active: true,
                    active_tiles: Map::empty(),
                    ..self.used(loaded)
                },
            )
        }
    }

    /// The engine once a stroke is over: its surface and the pages of loaded paint are
    /// given up.
    pub open spec fn finished(self) -> EngineModel {
        EngineModel {
            active: None,
            surface: SurfaceModel {
                layout: self.surface.layout,
                pages: Map::empty(),
                page_span: 0,
                tiles: Seq::empty(),
                dirty: Map::empty(),
                generation: later_generation(self.surface.generation, 1),
            },
            deposition: released(self.deposition),
            ..self
        }
    }

    /// The engine whose stroke takes no more commands.
    pub open spec fn ended(self, loaded: bool) -> EngineModel {
        self.with_used(loaded, RoundTargetModel { active: false, ..self.used(loaded) })
    }

    /// Why the stroke cannot be given up, if it cannot.
    pub open spec fn cancel_error(self, document: ResidentModel) -> Option<
        GpuResidentRoundStrokeError,
    > {
        match self.active {
            None => Some(GpuResidentRoundStrokeError::NoActiveStroke),
            Some(stroke) => if let Some(error) = document.stroke_error(Some(stroke.id)) {
                Some(GpuResidentRoundStrokeError::Resident(error))
            } else if self.used(stroke.loaded).pending {
                Some(GpuResidentRoundStrokeError::MaskBatchAwaitingSubmission)
            } else if !self.used(stroke.loaded).active {
                Some(GpuResidentRoundStrokeError::Mask(RoundMaskTargetError::StrokeNotActive))
            } else {
                None
            },
        }
    }
}

/// A mask of loaded paint without pages.
pub open spec fn released(mask: RoundTargetModel) -> RoundTargetModel {
    if mask.material {
        RoundTargetModel { pages: 0, active_tiles: Map::empty(), ..mask }
    } else {
        mask
    }
}

/// A load within the bounds that a brush can hold.
pub open spec fn bounded_load(load: u32) -> u32 {
    if load >= 0x8000_0000 || load < LEAST_LOAD_BITS {
        LEAST_LOAD_BITS
    } else if load > GREATEST_LOAD_BITS {
        GREATEST_LOAD_BITS
    } else {
        load
    }
}

/// Whether the tiles of a stroke could be given back, and what that leaves.
pub open spec fn given_back(
    document: ResidentModel,
    id: GpuResidentRoundStrokeId,
    allocations: Seq<AtlasAllocation>,
) -> Result<ResidentModel, GpuResidentDocumentError> {
    match document.rollback_error(id, allocations) {
        Some(error) => Err(error),
        None => Ok(
            ResidentModel { places: places_rolled_back(document.places, allocations), ..document },
        ),
    }
}

/// What comes of giving up a stroke that takes no more commands.
pub open spec fn abandon_reported(
    engine: EngineModel,
    document: ResidentModel,
    id: GpuResidentRoundStrokeId,
    allocations: Seq<AtlasAllocation>,
    result: Result<(), GpuResidentRoundStrokeError>,
    engine_after: EngineModel,
    document_after: ResidentModel,
) -> bool {
    match given_back(document, id, allocations) {
        Err(expected) => {
            &&& result matches Err(error) && error == GpuResidentRoundStrokeError::Resident(
                expected,
            )
            &&& engine_after == engine
            &&& document_after == document
        },
        Ok(restored) => {
            &&& result is Ok
            &&& engine_after == engine.finished()
            &&& document_after == (ResidentModel { stroke: None, ..restored })
        },
    }
}

impl GpuResidentRoundStrokeEngine {
    pub(crate) open(crate) spec fn parts_wf(self) -> bool {
        &&& self.mask.wf()
        &&& self.deposition.wf()
        &&& self.surface.wf()
    }

    pub open(crate) spec fn wf(self) -> bool {
        &&& self.parts_wf()
        &&& self.active matches Some(active) ==> active.wf()
        &&& self@.valid()
    }

    pub fn new(limits: DeviceLimits, document: &GpuResidentDocument) -> (engine: Result<
        GpuResidentRoundStrokeEngine,
        GpuResidentRoundStrokeError,
    >)
        requires
            document.wf(),
        ensures
            match engine {
                Ok(engine) => {
                    &&& engine.wf()
                    &&& engine@.target_id == document@.target_id
                    &&& engine@.layout@ == document@.layout@
                    &&& exists|mask: RoundMaskTarget| #[trigger]
                        RoundMaskTarget::created(limits, engine@.layout, false, Ok(mask))
                            && engine@.mask == mask@
                    &&& exists|mask: RoundMaskTarget| #[trigger]
                        RoundMaskTarget::created(limits, engine@.layout, true, Ok(mask))
                            && engine@.deposition == mask@
                    &&& engine@.surface == (SurfaceModel {
                        layout: engine@.layout,
                        pages: Map::empty(),
                        page_span: 0,
                        tiles: Seq::empty(),
                        dirty: Map::empty(),
                        generation: 0,
                    })
                    &&& engine@.active is None
                    &&& engine@.submissions == 0
                },
                Err(GpuResidentRoundStrokeError::Mask(error)) => RoundMaskTarget::created(
                    limits,
                    document@.layout,
                    false,
                    Err(error),
                ),
                Err(_) => false,
            },
    {
        let layout = document.atlas.layout;
        let mask = match RoundMaskTarget::new(limits, layout) {
            Ok(mask) => mask,
            Err(error) => {
                return Err(GpuResidentRoundStrokeError::Mask(error));
            },
        };
        let ghost first = mask;
        assert(RoundMaskTarget::created(limits, layout, false, Ok(first)));
        let deposition = match RoundMaskTarget::new_material(limits, layout) {
            Ok(deposition) => deposition,
            Err(error) => {
                return Err(GpuResidentRoundStrokeError::Mask(error));
            },
        };
        let ghost second = deposition;
        assert(RoundMaskTarget::created(limits, layout, true, Ok(second)));
        Ok(
            GpuResidentRoundStrokeEngine {
                target_id: document.target_id(),
                layout,
                mask,
                deposition,
                surface: MaterialTarget::new(layout),
                active: None,
                material_submissions: 0,
            },
        )
    }

    pub(crate) fn check_target(&self, document: &GpuResidentDocument, target: &GpuDocumentTarget) -> (checked:
        Result<(), GpuResidentRoundStrokeError>)
        requires
            document.wf(),
        ensures
            match checked {
                Ok(_) => self@.place_error(document@, target@) is None,
                Err(error) => self@.place_error(document@, target@) == Some(error),
            },
    {
        if document.target_id().get() != self.target_id.get() || target.id().get()
            != self.target_id.get() {
            return Err(
                GpuResidentRoundStrokeError::TargetMismatch {
                    expected: self.target_id,
                    actual: target.id(),
                },
            );
        }
        if !document.atlas.layout.same(self.layout) || !target.layout().same(self.layout) {
            return Err(GpuResidentRoundStrokeError::LayoutMismatch);
        }
        Ok(())
    }

    /// Begins a stroke of a plain round brush.
    pub fn begin(
        &mut self,
        document: &mut GpuResidentDocument,
        target: &GpuDocumentTarget,
        recipe: RoundBrushRecipeV1,
    ) -> (id: Result<GpuResidentRoundStrokeId, GpuResidentRoundStrokeError>)
        requires
            old(self).wf(),
            old(document).wf(),
        ensures
            final(self).wf(),
            final(document).wf(),
            begin_reported(
                old(self)@,
                old(document)@,
                target@,
                recipe,
                (false, false, ONE_BITS),
                id,
                final(self)@,
                final(document)@,
            ),
    {
        match self.mask.check_brush_change() {
            Ok(_) => {},
            Err(error) => {
                return Err(GpuResidentRoundStrokeError::Mask(error));
            },
        }
        self.begin_internal(document, target, recipe, false, false, ONE_BITS)
    }

    /// Begins a stroke of a brush that a shader draws.
    pub fn begin_shader(
        &mut self,
        document: &mut GpuResidentDocument,
        target: &GpuDocumentTarget,
        recipe: RoundBrushRecipeV1,
    ) -> (id: Result<GpuResidentRoundStrokeId, GpuResidentRoundStrokeError>)
        requires
            old(self).wf(),
            old(document).wf(),
        ensures
            final(self).wf(),
            final(document).wf(),
            begin_reported(
                old(self)@,
                old(document)@,
                target@,
                recipe,
                (true, false, ONE_BITS),
                id,
                final(self)@,
                final(document)@,
            ),
    {
        match self.mask.check_brush_change() {
            Ok(_) => {},
            Err(error) => {
                return Err(GpuResidentRoundStrokeError::Mask(error));
            },
        }
        self.begin_internal(document, target, recipe, true, false, ONE_BITS)
    }

    /// Begins a stroke of a brush that carries paint.
    pub fn begin_loaded(
        &mut self,
        document: &mut GpuResidentDocument,
        target: &GpuDocumentTarget,
        recipe: RoundBrushRecipeV1,
        load: u32,
    ) -> (id: Result<GpuResidentRoundStrokeId, GpuResidentRoundStrokeError>)
        requires
            old(self).wf(),
            old(document).wf(),
        ensures
            final(self).wf(),
            final(document).wf(),
            if !is_finite(load) {
                &&& id matches Err(error) && error == GpuResidentRoundStrokeError::InvalidPaintLoad(
                    load,
                )
                &&& final(self)@ == old(self)@
                &&& final(document)@ == old(document)@
            } else {
                begin_reported(
                    old(self)@,
                    old(document)@,
                    target@,
                    recipe,
                    (true, true, bounded_load(load)),
                    id,
                    final(self)@,
                    final(document)@,
                )
            },
    {
        let magnitude: u32 = if load >= 0x8000_0000 {
            load - 0x8000_0000
        } else {
            load
        };
        if magnitude >= 0x7f80_0000 {
            return Err(GpuResidentRoundStrokeError::InvalidPaintLoad(load));
        }
        match self.deposition.check_brush_change() {
            Ok(_) => {},
            Err(error) => {
                return Err(GpuResidentRoundStrokeError::Mask(error));
            },
        }
        let bounded: u32 = if load >= 0x8000_0000 || load < LEAST_LOAD_BITS {
            LEAST_LOAD_BITS
        } else if load > GREATEST_LOAD_BITS {
            GREATEST_LOAD_BITS
        } else {
            load
        };
        self.begin_internal(document, target, recipe, true, true, bounded)
    }

    fn begin_internal(
        &mut self,
        document: &mut GpuResidentDocument,
        target: &GpuDocumentTarget,
        recipe: RoundBrushRecipeV1,
        shader_brush: bool,
        loaded: bool,
        load: u32,
    ) -> (id: Result<GpuResidentRoundStrokeId, GpuResidentRoundStrokeError>)
        requires
            old(self).wf(),
            old(document).wf(),
        ensures
            final(self).wf(),
            final(document).wf(),
            match id {
                Ok(id) => {
                    &&& old(self)@.begin_error(old(document)@, target@, recipe) is None
                    &&& id == GpuResidentRoundStrokeId(old(document)@.next_stroke)
                    &&& final(self)@ == old(self)@.begun(
                        old(document)@,
                        recipe,
                        shader_brush,
                        loaded,
                        load,
                    )
                    &&& final(document)@ == (ResidentModel {
                        stroke: Some(id),
                        next_stroke: (old(document)@.next_stroke + 1) as u64,
                        ..old(document)@
                    })
                },
                Err(error) => {
                    &&& old(self)@.begin_error(old(document)@, target@, recipe) == Some(error)
                    &&& final(self)@ == old(self)@
                    &&& final(document)@ == old(document)@
                },
            },
    {
        if self.active.is_some() {
            return Err(GpuResidentRoundStrokeError::StrokeAlreadyActive);
        }
        match self.check_target(document, target) {
            Ok(_) => {},
            Err(error) => {
                return Err(error);
            },
        }
        if target.commit_is_pending() || target.undo_swap_is_pending() {
            return Err(GpuResidentRoundStrokeError::TargetBusy);
        }
        match recipe.material().accumulation() {
            StrokeAccumulation::NoEffect => {
                return Err(GpuResidentRoundStrokeError::NoEffect);
            },
            StrokeAccumulation::CoverageUnion => {},
            StrokeAccumulation::OpticalDensity { flow } => {
                return Err(GpuResidentRoundStrokeError::UnsupportedFlow(flow));
            },
        }
        let layer = document.metadata.active_layer();
        let canvas: [u32; 2] = [document.metadata.width(), document.metadata.height()];
        let scheduler = match RoundMaskScheduler::new(canvas, layer, self.layout) {
            Ok(scheduler) => scheduler,
            Err(_) => unreached(),
        };
        let id = match document.begin_round_stroke(target, layer) {
            Ok(id) => id,
            Err(error) => {
                return Err(GpuResidentRoundStrokeError::Resident(error));
            },
        };
        let begun = if loaded {
            self.deposition.begin_stroke()
        } else {
            self.mask.begin_stroke()
        };
        assert(begun is Ok);
        self.surface.begin();
        self.active = Some(
            ActiveRoundStroke {
                id,
                recipe,
                scheduler,
                commands: Vec::new(),
                provisional_allocations: Vec::new(),
                submitted_batches: 0,
                shader_brush,
                loaded,
                material_surface: false,
                load,
                material_slots: KeyedMap::new(),
            },
        );
        Ok(id)
    }

    /// Gives up the stroke in progress, with the tiles that it newly placed.
    pub fn cancel(&mut self, document: &mut GpuResidentDocument) -> (cancelled: Result<
        (),
        GpuResidentRoundStrokeError,
    >)
        requires
            old(self).wf(),
            old(document).wf(),
        ensures
            final(self).wf(),
            final(document).wf(),
            match old(self)@.cancel_error(old(document)@) {
                Some(expected) => {
                    &&& cancelled matches Err(error) && error == expected
                    &&& final(self)@ == old(self)@
                    &&& final(document)@ == old(document)@
                },
                None => abandon_reported(
                    old(self)@.ended(old(self)@.active->0.loaded),
                    old(document)@,
                    old(self)@.active->0.id,
                    old(self)@.active->0.provisional,
                    cancelled,
                    final(self)@,
                    final(document)@,
                ),
            },
    {
        let (id, loaded, allocations) = match &self.active {
            None => {
                return Err(GpuResidentRoundStrokeError::NoActiveStroke);
            },
            Some(active) => (
                active.id,
                active.loaded,
                copy_allocations(&active.provisional_allocations),
            ),
        };
        match document.check_active_round_stroke(Some(id)) {
            Ok(_) => {},
            Err(error) => {
                return Err(GpuResidentRoundStrokeError::Resident(error));
            },
        }
        let pending = if loaded {
            self.deposition.encoded_batch_is_pending()
        } else {
            self.mask.encoded_batch_is_pending()
        };
        if pending {
            return Err(GpuResidentRoundStrokeError::MaskBatchAwaitingSubmission);
        }
        let ended = if loaded {
            self.deposition.end_stroke()
        } else {
            self.mask.end_stroke()
        };
        match ended {
            Ok(_) => {},
            Err(error) => {
                return Err(GpuResidentRoundStrokeError::Mask(error));
            },
        }
        self.abandon_ended(document, id, &allocations)
    }

    pub(crate) fn abandon_ended(
        &mut self,
        document: &mut GpuResidentDocument,
        id: GpuResidentRoundStrokeId,
        allocations: &Vec<AtlasAllocation>,
    ) -> (abandoned: Result<(), GpuResidentRoundStrokeError>)
        requires
            old(self).wf(),
            !old(self)@.mask.active,
            !old(self)@.deposition.active,
            old(document).wf(),
        ensures
            final(self).wf(),
            final(document).wf(),
            abandon_reported(
                old(self)@,
                old(document)@,
                id,
                allocations@,
                abandoned,
                final(self)@,
                final(document)@,
            ),
    {
        match document.rollback_round_stroke_allocations(id, allocations) {
            Ok(_) => {},
            Err(error) => {
                return Err(GpuResidentRoundStrokeError::Resident(error));
            },
        }
        match document.finish_round_stroke(id) {
            Ok(_) => {},
            Err(_) => unreached(),
        }
        self.release();
        Ok(())
    }

    pub(crate) fn release(&mut self)
        requires
            old(self).wf(),
            !old(self)@.mask.active,
            !old(self)@.deposition.active,
        ensures
            final(self).wf(),
            final(self)@ == old(self)@.finished(),
    {
        self.active = None;
        self.surface.release();
        self.deposition.release_material_pages();
    }

    /// The stroke in progress whose surface is shown in place of its mask.
    pub fn material_preview(&self) -> (surface: Option<&MaterialTarget>)
        requires
            self.wf(),
        ensures
            match surface {
                Some(surface) => {
                    &&& self@.active matches Some(stroke) && stroke.material_surface
                    &&& surface.wf()
                    &&& surface@ == self@.surface
                },
                None => self@.active matches Some(stroke) ==> !stroke.material_surface,
            },
    {
        match &self.active {
            Some(active) => if active.material_surface {
                Some(&self.surface)
            } else {
                None
            },
            None => None,
        }
    }

    /// The mask that coverage is drawn into.
    pub fn coverage_mask(&self) -> (mask: &RoundMaskTarget)
        requires
            self.wf(),
        ensures
            mask.wf(),
            mask@ == self@.mask,
    {
        &self.mask
    }

    /// The mask that loaded paint is drawn into.
    pub fn deposition_mask(&self) -> (mask: &RoundMaskTarget)
        requires
            self.wf(),
        ensures
            mask.wf(),
            mask@ == self@.deposition,
    {
        &self.deposition
    }

    /// Whether the stroke in progress lays down loaded paint.
    pub fn stroke_is_loaded(&self) -> (loaded: bool)
        ensures
            loaded == (self@.active matches Some(stroke) && stroke.loaded),
    {
        match &self.active {
            Some(active) => active.loaded,
            None => false,
        }
    }

    pub fn active_id(&self) -> (id: Option<GpuResidentRoundStrokeId>)
        ensures
            id == (match self@.active {
                Some(stroke) => Some(stroke.id),
                None => None,
            }),
    {
        match &self.active {
            Some(active) => Some(active.id),
            None => None,
        }
    }

    pub fn submitted_batches(&self) -> (count: u32)
        ensures
            count == (match self@.active {
                Some(stroke) => stroke.submitted,
                None => 0,
            }),
    {
        match &self.active {
            Some(active) => active.submitted_batches,
            None => 0,
        }
    }

    pub fn provisional_tile_count(&self) -> (count: usize)
        ensures
            count == (match self@.active {
                Some(stroke) => stroke.provisional.len(),
                None => 0,
            }),
    {
        match &self.active {
            Some(active) => active.provisional_allocations.len(),
            None => 0,
        }
    }
}

/// What comes of beginning a stroke.
pub open spec fn begin_reported(
    engine: EngineModel,
    document: ResidentModel,
    target: TargetModel,
    recipe: RoundBrushRecipeV1,
    brush: (bool, bool, u32),
    id: Result<GpuResidentRoundStrokeId, GpuResidentRoundStrokeError>,
    engine_after: EngineModel,
    document_after: ResidentModel,
) -> bool {
    let (shader_brush, loaded, load) = brush;
    let expected = if engine.used(loaded).active {
        Some(GpuResidentRoundStrokeError::Mask(RoundMaskTargetError::StrokeAlreadyActive))
    } else {
        engine.begin_error(document, target, recipe)
    };
    match id {
        Ok(id) => {
            &&& expected is None
            &&& id == GpuResidentRoundStrokeId(document.next_stroke)
            &&& engine_after == engine.begun(document, recipe, shader_brush, loaded, load)
            &&& document_after == (ResidentModel {
                stroke: Some(id),
                next_stroke: (document.next_stroke + 1) as u64,
                ..document
            })
        },
        Err(error) => {
            &&& expected == Some(error)
            &&& engine_after == engine
            &&& document_after == document
        },
    }
}

pub(crate) fn copy_allocations(allocations: &Vec<AtlasAllocation>) -> (copy: Vec<AtlasAllocation>)
    ensures
        copy@ == allocations@,
{
    let mut copy: Vec<AtlasAllocation> = Vec::new();
    let mut i: usize = 0;
    while i < allocations.len()
        invariant
            i <= allocations@.len(),
            copy@ == allocations@.subrange(0, i as int),
        decreases allocations@.len() - i,
    {
        copy.push(allocations[i]);
        i += 1;
        assert(copy@ =~= allocations@.subrange(0, i as int));
    }
    assert(copy@ =~= allocations@);
    copy
}

} // verus!
