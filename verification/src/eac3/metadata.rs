//! Object audio metadata: the OAMD and JOC payloads carried in EMDF
//! containers, with the fields that a frame omits filled in from the frames
//! before it.

use vstd::prelude::*;
use crate::bits::BitReader;
use crate::grammar::{lemma_repeat_len, repeat, rows};
use super::joc::{joc_payload, parse_joc_payload, JocPayload};
use super::oamd::{
    block_step, element, element_step, oamd_payload, object_element, object_step,
    parse_oamd_payload, OamdElement, OamdElementKind, OamdElementKindModel, OamdElementModel,
    OamdObjectElementModel, OamdPayload, OamdPayloadModel,
};
use super::oamd_block::{
    in_set, OamdObjectBlock, ObjectDistance, ObjectGain, ObjectPosition, ObjectSize,
};
use super::syncframe::ParseError;
use super::types::ObjectAnchor;

verus! {

#[derive(Debug, Clone, Copy, PartialEq, Eq, Structural)]
pub enum ParsedEmdfPayloadKind {
    Unknown,
    Oamd,
    Joc,
}

#[derive(Debug, Clone, PartialEq, Eq)]
pub enum ParsedEmdfPayloadData {
    Unknown,
    Oamd(OamdPayload),
    Joc(JocPayload),
}

impl ParsedEmdfPayloadData {
    pub fn kind(&self) -> (r: ParsedEmdfPayloadKind)
        ensures
            r == match self {
                ParsedEmdfPayloadData::Unknown => ParsedEmdfPayloadKind::Unknown,
                ParsedEmdfPayloadData::Oamd(_) => ParsedEmdfPayloadKind::Oamd,
                ParsedEmdfPayloadData::Joc(_) => ParsedEmdfPayloadKind::Joc,
            },
    {
        match self {
            ParsedEmdfPayloadData::Unknown => ParsedEmdfPayloadKind::Unknown,
            ParsedEmdfPayloadData::Oamd(_) => ParsedEmdfPayloadKind::Oamd,
            ParsedEmdfPayloadData::Joc(_) => ParsedEmdfPayloadKind::Joc,
        }
    }
}

/// What is known of one object in one block after the last frame.
#[derive(Debug, Clone, Copy, PartialEq, Eq, Structural)]
pub struct OamdObjectBlockParseState {
    pub anchor: ObjectAnchor,
    pub gain: Option<ObjectGain>,
    pub priority: Option<u8>,
    pub valid_position: bool,
    pub differential_position: bool,
    pub position: Option<ObjectPosition>,
    pub distance: Option<ObjectDistance>,
    pub size: Option<ObjectSize>,
    pub screen_factor: Option<u8>,
    pub depth_factor: Option<u8>,
}

/// Nothing known yet.
pub open spec fn blank() -> OamdObjectBlockParseState {
    OamdObjectBlockParseState {
        anchor: ObjectAnchor::Room,
        gain: None,
        priority: None,
        valid_position: false,
        differential_position: false,
        position: None,
        distance: None,
        size: None,
        screen_factor: None,
        depth_factor: None,
    }
}

impl Default for OamdObjectBlockParseState {
    fn default() -> (r: Self)
        ensures
            r == blank(),
    {
        OamdObjectBlockParseState {
            anchor: ObjectAnchor::Room,
            gain: None,
            priority: None,
            valid_position: false,
            differential_position: false,
            position: None,
            distance: None,
            size: None,
            screen_factor: None,
            depth_factor: None,
        }
    }
}

/// The basic fields a block transmits: all of them under status 1, those of
/// its field set under another odd status, none otherwise.
pub open spec fn basic_set(parsed: OamdObjectBlock) -> u8 {
    if parsed.inactive || parsed.basic_info_status % 2 == 0 {
        0
    } else {
        match parsed.basic_info_blocks {
            Some(blocks) => blocks,
            None => if parsed.basic_info_status == 1 { 3 } else { 0 },
        }
    }
}

/// A block transmits render info.
pub open spec fn renders(parsed: OamdObjectBlock, bed: bool) -> bool {
    !parsed.inactive && !bed && parsed.render_info_status % 2 == 1
}

/// The render fields a block that [`renders`] transmits.
pub open spec fn render_set(parsed: OamdObjectBlock) -> u8 {
    match parsed.render_info_blocks {
        Some(blocks) => blocks,
        None => if parsed.render_info_status == 1 { 15 } else { 0 },
    }
}

/// What is known after a block: every transmitted field replaces what was
/// known, every omitted one is kept. A block that renders without a position
/// makes the position invalid but does not forget it.
pub open spec fn next_state(
    state: OamdObjectBlockParseState,
    parsed: OamdObjectBlock,
    bed: bool,
) -> OamdObjectBlockParseState {
    let basic = basic_set(parsed);
    let render = render_set(parsed);
    let placed = renders(parsed, bed) && in_set(render, 0);
    let screened = renders(parsed, bed) && in_set(render, 3) && parsed.anchor
        == ObjectAnchor::Screen;
    OamdObjectBlockParseState {
        gain: if in_set(basic, 1) && parsed.gain is Some { parsed.gain } else { state.gain },
        priority: if in_set(basic, 0) && parsed.priority is Some {
            parsed.priority
        } else {
            state.priority
        },
        valid_position: if renders(parsed, bed) { placed } else { state.valid_position },
        differential_position: if placed {
            parsed.differential_position
        } else {
            state.differential_position
        },
        position: if placed && parsed.position is Some { parsed.position } else { state.position },
        distance: if placed { parsed.distance } else { state.distance },
        size: if renders(parsed, bed) && in_set(render, 2) && parsed.size is Some {
            parsed.size
        } else {
            state.size
        },
        anchor: if bed {
            ObjectAnchor::Speaker
        } else if screened {
            ObjectAnchor::Screen
        } else {
            state.anchor
        },
        screen_factor: if screened { parsed.screen_factor } else { state.screen_factor },
        depth_factor: if screened { parsed.depth_factor } else { state.depth_factor },
    }
}

/// A block with every field as known after it.
pub open spec fn completed(
    parsed: OamdObjectBlock,
    state: OamdObjectBlockParseState,
) -> OamdObjectBlock {
    OamdObjectBlock {
        anchor: state.anchor,
        gain: state.gain,
        priority: state.priority,
        valid_position: state.valid_position,
        differential_position: state.differential_position,
        position: state.position,
        distance: state.distance,
        size: state.size,
        screen_factor: state.screen_factor,
        depth_factor: state.depth_factor,
        ..parsed
    }
}

impl OamdObjectBlockParseState {
    fn resolve_block(&mut self, parsed: &mut OamdObjectBlock, bed_or_isf_object: bool)
        ensures
            *final(self) == next_state(*old(self), *old(parsed), bed_or_isf_object),
            *final(parsed) == completed(*old(parsed), *final(self)),
    {
        let basic_info_status: u8 = if parsed.inactive { 0 } else { parsed.basic_info_status };
        if basic_info_status % 2 == 1 {
            let blocks: u8 = match parsed.basic_info_blocks {
                Some(v) => v,
                None => if basic_info_status == 1 { 3 } else { 0 },
            };
            if (blocks / 2) % 2 == 1 && parsed.gain.is_some() {
                self.gain = parsed.gain;
            }
            if blocks % 2 == 1 && parsed.priority.is_some() {
                self.priority = parsed.priority;
            }
        }
        let render_info_status: u8 = if parsed.inactive || bed_or_isf_object {
            0
        } else {
            parsed.render_info_status
        };
        if render_info_status % 2 == 1 {
            let blocks: u8 = match parsed.render_info_blocks {
                Some(v) => v,
                None => if render_info_status == 1 { 15 } else { 0 },
            };
            self.valid_position = blocks % 2 == 1;
            if self.valid_position {
                self.differential_position = parsed.differential_position;
                if parsed.position.is_some() {
                    self.position = parsed.position;
                }
                self.distance = parsed.distance;
            }
            if (blocks / 4) % 2 == 1 && parsed.size.is_some() {
                self.size = parsed.size;
            }
            if (blocks / 8) % 2 == 1 && parsed.anchor == ObjectAnchor::Screen {
                self.anchor = ObjectAnchor::Screen;
                self.screen_factor = parsed.screen_factor;
                self.depth_factor = parsed.depth_factor;
            }
        }
        if bed_or_isf_object {
            self.anchor = ObjectAnchor::Speaker;
        }
        parsed.anchor = self.anchor;
        parsed.gain = self.gain;
        parsed.priority = self.priority;
        parsed.valid_position = self.valid_position;
        parsed.differential_position = self.differential_position;
        parsed.position = self.position;
        parsed.distance = self.distance;
        parsed.size = self.size;
        parsed.screen_factor = self.screen_factor;
        parsed.depth_factor = self.depth_factor;
    }
}

/// What is known of a row of blocks after it was received.
pub open spec fn next_row(
    states: Seq<OamdObjectBlockParseState>,
    blocks: Seq<OamdObjectBlock>,
    bed: bool,
) -> Seq<OamdObjectBlockParseState> {
    Seq::new(
        states.len(),
        |j: int| if j < blocks.len() { next_state(states[j], blocks[j], bed) } else { states[j] },
    )
}

/// A row of blocks with every field as known after it.
pub open spec fn completed_row(
    states: Seq<OamdObjectBlockParseState>,
    blocks: Seq<OamdObjectBlock>,
    bed: bool,
) -> Seq<OamdObjectBlock> {
    Seq::new(blocks.len(), |j: int| completed(blocks[j], next_state(states[j], blocks[j], bed)))
}

fn resolve_row(
    states: &mut Vec<OamdObjectBlockParseState>,
    blocks: &mut Vec<OamdObjectBlock>,
    bed: bool,
)
    requires
        old(blocks)@.len() <= old(states)@.len(),
    ensures
        final(states)@ =~= next_row(old(states)@, old(blocks)@, bed),
        final(blocks)@ =~= completed_row(old(states)@, old(blocks)@, bed),
{
    let n: usize = blocks.len();
    let mut j: usize = 0;
    while j < n
        invariant
            j <= n,
            n == old(blocks)@.len(),
            blocks@.len() == n,
            n <= states@.len(),
            states@.len() == old(states)@.len(),
            forall|k: int|
                0 <= k < j ==> #[trigger] states@[k] == next_state(
                    old(states)@[k],
                    old(blocks)@[k],
                    bed,
                ),
            forall|k: int| j <= k < states@.len() ==> #[trigger] states@[k] == old(states)@[k],
            forall|k: int|
                0 <= k < j ==> #[trigger] blocks@[k] == completed(
                    old(blocks)@[k],
                    next_state(old(states)@[k], old(blocks)@[k], bed),
                ),
            forall|k: int| j <= k < n ==> #[trigger] blocks@[k] == old(blocks)@[k],
        decreases n - j,
    {
        let mut state: OamdObjectBlockParseState = states[j];
        let mut block: OamdObjectBlock = blocks[j];
        state.resolve_block(&mut block, bed);
        states.set(j, state);
        blocks.set(j, block);
        j = j + 1;
    }
}

/// One blank state per object and block.
pub open spec fn blank_grid(objects: int, blocks: int) -> Seq<Seq<OamdObjectBlockParseState>> {
    Seq::new(objects as nat, |i: int| Seq::new(blocks as nat, |j: int| blank()))
}

fn new_blank_grid(objects: usize, blocks: usize) -> (r: Vec<Vec<OamdObjectBlockParseState>>)
    ensures
        rows(r@) =~~= blank_grid(objects as int, blocks as int),
{
    let mut grid: Vec<Vec<OamdObjectBlockParseState>> = Vec::new();
    let mut i: usize = 0;
    while i < objects
        invariant
            i <= objects,
            grid@.len() == i,
            forall|k: int|
                0 <= k < i ==> (#[trigger] grid@[k])@ =~= Seq::new(blocks as nat, |j: int| blank()),
        decreases objects - i,
    {
        let mut row: Vec<OamdObjectBlockParseState> = Vec::new();
        let mut j: usize = 0;
        while j < blocks
            invariant
                j <= blocks,
                row@.len() == j,
                forall|k: int| 0 <= k < j ==> #[trigger] row@[k] == blank(),
            decreases blocks - j,
        {
            row.push(OamdObjectBlockParseState::default());
            j = j + 1;
        }
        grid.push(row);
        i = i + 1;
    }
    grid
}

/// What is known of an element after the last frame: nothing, or one state
/// per object and block.
#[derive(Debug, Clone)]
pub struct OamdElementParseState {
    object: Option<Vec<Vec<OamdObjectBlockParseState>>>,
}

impl View for OamdElementParseState {
    type V = Option<Seq<Seq<OamdObjectBlockParseState>>>;

    closed spec fn view(&self) -> Option<Seq<Seq<OamdObjectBlockParseState>>> {
        match self.object {
            Some(grid) => Some(rows(grid@)),
            None => None,
        }
    }
}

/// Blocks per object of a grid, by its first row.
pub open spec fn grid_width(grid: Seq<Seq<OamdObjectBlockParseState>>) -> int {
    if grid.len() == 0 { 0 } else { grid[0].len() as int }
}

/// All rows of a grid are as long as its first.
pub open spec fn rectangular(state: Option<Seq<Seq<OamdObjectBlockParseState>>>) -> bool {
    match state {
        Some(grid) => forall|i: int|
            0 <= i < grid.len() ==> (#[trigger] grid[i]).len() == grid_width(grid),
        None => true,
    }
}

/// The grid that a frame of the given shape starts from: what is known, if it
/// has that shape, and nothing otherwise.
pub open spec fn starting_grid(
    state: Option<Seq<Seq<OamdObjectBlockParseState>>>,
    objects: int,
    blocks: int,
) -> Seq<Seq<OamdObjectBlockParseState>> {
    match state {
        Some(grid) => if grid.len() == objects && grid_width(grid) == blocks {
            grid
        } else {
            blank_grid(objects, blocks)
        },
        None => blank_grid(objects, blocks),
    }
}

/// What is known of every object after an element; the first `beds` objects
/// are beds.
pub open spec fn next_grid(
    grid: Seq<Seq<OamdObjectBlockParseState>>,
    blocks: Seq<Seq<OamdObjectBlock>>,
    beds: int,
) -> Seq<Seq<OamdObjectBlockParseState>> {
    Seq::new(
        grid.len(),
        |i: int| if i < blocks.len() { next_row(grid[i], blocks[i], i < beds) } else { grid[i] },
    )
}

/// Every object's blocks with every field as known after them.
pub open spec fn completed_grid(
    grid: Seq<Seq<OamdObjectBlockParseState>>,
    blocks: Seq<Seq<OamdObjectBlock>>,
    beds: int,
) -> Seq<Seq<OamdObjectBlock>> {
    Seq::new(blocks.len(), |i: int| completed_row(grid[i], blocks[i], i < beds))
}

/// What is known of an element after it was received.
pub open spec fn next_element(
    state: Option<Seq<Seq<OamdObjectBlockParseState>>>,
    received: OamdElementModel,
    objects: int,
    beds: int,
) -> Option<Seq<Seq<OamdObjectBlockParseState>>> {
    match received.kind {
        OamdElementKindModel::Unknown => state,
        OamdElementKindModel::Object(o) => Some(
            next_grid(
                starting_grid(state, objects, o.block_updates.len() as int),
                o.object_blocks,
                beds,
            ),
        ),
    }
}

/// An element with every field as known after it.
pub open spec fn completed_element(
    state: Option<Seq<Seq<OamdObjectBlockParseState>>>,
    received: OamdElementModel,
    objects: int,
    beds: int,
) -> OamdElementModel {
    match received.kind {
        OamdElementKindModel::Unknown => received,
        OamdElementKindModel::Object(o) => OamdElementModel {
            kind: OamdElementKindModel::Object(
                OamdObjectElementModel {
                    object_blocks: completed_grid(
                        starting_grid(state, objects, o.block_updates.len() as int),
                        o.object_blocks,
                        beds,
                    ),
                    ..o
                },
            ),
            ..received
        },
    }
}

/// An element holds no more objects, and no more blocks, than it declares.
pub open spec fn element_fits(e: OamdElementModel, objects: int) -> bool {
    match e.kind {
        OamdElementKindModel::Unknown => true,
        OamdElementKindModel::Object(o) => {
            &&& o.object_blocks.len() <= objects
            &&& forall|i: int|
                0 <= i < o.object_blocks.len() ==> (#[trigger] o.object_blocks[i]).len()
                    <= o.block_updates.len()
        },
    }
}

fn resolve_grid(
    grid: &mut Vec<Vec<OamdObjectBlockParseState>>,
    blocks: &mut Vec<Vec<OamdObjectBlock>>,
    beds: usize,
)
    requires
        old(blocks)@.len() <= old(grid)@.len(),
        forall|i: int|
            0 <= i < old(blocks)@.len() ==> (#[trigger] old(blocks)@[i])@.len() <= old(
                grid,
            )@[i]@.len(),
    ensures
        rows(final(grid)@) =~~= next_grid(rows(old(grid)@), rows(old(blocks)@), beds as int),
        rows(final(blocks)@) =~~= completed_grid(
            rows(old(grid)@),
            rows(old(blocks)@),
            beds as int,
        ),
{
    let n: usize = blocks.len();
    let mut i: usize = 0;
    while i < n
        invariant
            i <= n,
            n == old(blocks)@.len(),
            blocks@.len() == n,
            n <= grid@.len(),
            grid@.len() == old(grid)@.len(),
            forall|k: int|
                0 <= k < n ==> (#[trigger] old(blocks)@[k])@.len() <= old(grid)@[k]@.len(),
            forall|k: int|
                0 <= k < i ==> (#[trigger] grid@[k])@ == next_row(
                    old(grid)@[k]@,
                    old(blocks)@[k]@,
                    k < beds,
                ),
            forall|k: int| i <= k < grid@.len() ==> #[trigger] grid@[k] == old(grid)@[k],
            forall|k: int|
                0 <= k < i ==> (#[trigger] blocks@[k])@ == completed_row(
                    old(grid)@[k]@,
                    old(blocks)@[k]@,
                    k < beds,
                ),
            forall|k: int| i <= k < n ==> #[trigger] blocks@[k] == old(blocks)@[k],
        decreases n - i,
    {
        assert(blocks@[i as int]@.len() <= grid@[i as int]@.len()) by {
            assert(blocks@[i as int] == old(blocks)@[i as int]);
            assert(grid@[i as int] == old(grid)@[i as int]);
        }
        resolve_row(&mut grid[i], &mut blocks[i], i < beds);
        i = i + 1;
    }
}

impl OamdElementParseState {
    fn new() -> (r: Self)
        ensures
            r@ is None,
    {
        OamdElementParseState { object: None }
    }

    fn resolve_element(
        &mut self,
        element: &mut OamdElement,
        object_count: usize,
        bed_or_isf_objects: usize,
    )
        requires
            rectangular(old(self)@),
            element_fits(old(element)@, object_count as int),
        ensures
            rectangular(final(self)@),
            final(self)@ == next_element(
                old(self)@,
                old(element)@,
                object_count as int,
                bed_or_isf_objects as int,
            ),
            final(element)@ == completed_element(
                old(self)@,
                old(element)@,
                object_count as int,
                bed_or_isf_objects as int,
            ),
    {
        let ghost received = element@;
        let ghost known = self@;
        match &mut element.kind {
            OamdElementKind::Unknown => {},
            OamdElementKind::Object(object) => {
                let block_count: usize = object.block_updates.len();
                let mut grid: Vec<Vec<OamdObjectBlockParseState>> = match self.object.take() {
                    Some(grid) => {
                        let width: usize = if grid.len() == 0 { 0 } else { grid[0].len() };
                        if grid.len() == object_count && width == block_count {
                            grid
                        } else {
                            new_blank_grid(object_count, block_count)
                        }
                    },
                    None => new_blank_grid(object_count, block_count),
                };
                let ghost start = rows(grid@);
                proof {
                    assert(start =~= starting_grid(known, object_count as int, block_count as int));
                    let o = received.kind->Object_0;
                    assert forall|i: int| 0 <= i < object.object_blocks@.len() implies (
                    #[trigger] object.object_blocks@[i])@.len() <= grid@[i]@.len() by {
                        assert(o.object_blocks[i].len() <= o.block_updates.len());
                        assert(start[i].len() == block_count);
                    }
                }
                resolve_grid(&mut grid, &mut object.object_blocks, bed_or_isf_objects);
                self.object = Some(grid);
            },
        }
        proof {
            if let OamdElementKindModel::Object(o) = received.kind {
                let start = starting_grid(known, object_count as int, o.block_updates.len() as int);
                assert forall|i: int| 0 <= i < start.len() implies (#[trigger] self@->Some_0[i]).len()
                    == grid_width(self@->Some_0) by {
                    assert(start[i].len() == grid_width(start));
                }
            }
        }
    }
}

/// What is known of every element after the last frame.
#[derive(Debug, Clone)]
pub struct OamdPayloadParseState {
    elements: Vec<OamdElementParseState>,
}

impl View for OamdPayloadParseState {
    type V = Seq<Option<Seq<Seq<OamdObjectBlockParseState>>>>;

    closed spec fn view(&self) -> Seq<Option<Seq<Seq<OamdObjectBlockParseState>>>> {
        Seq::new(self.elements@.len(), |i: int| self.elements@[i]@)
    }
}

/// What is known of `count` elements before a frame that has that many.
pub open spec fn starting_elements(
    known: Seq<Option<Seq<Seq<OamdObjectBlockParseState>>>>,
    count: int,
) -> Seq<Option<Seq<Seq<OamdObjectBlockParseState>>>> {
    if known.len() == count {
        known
    } else {
        Seq::new(count as nat, |i: int| None)
    }
}

/// What is known of every element after a payload.
pub open spec fn next_elements(
    known: Seq<Option<Seq<Seq<OamdObjectBlockParseState>>>>,
    received: OamdPayloadModel,
) -> Seq<Option<Seq<Seq<OamdObjectBlockParseState>>>> {
    let start = starting_elements(known, received.element_count as int);
    Seq::new(
        start.len(),
        |i: int|
            if i < received.elements.len() {
                next_element(
                    start[i],
                    received.elements[i],
                    received.object_count as int,
                    received.bed_or_isf_objects as int,
                )
            } else {
                start[i]
            },
    )
}

/// A payload with every field of every element as known after it.
pub open spec fn completed_payload(
    known: Seq<Option<Seq<Seq<OamdObjectBlockParseState>>>>,
    received: OamdPayloadModel,
) -> OamdPayloadModel {
    let start = starting_elements(known, received.element_count as int);
    OamdPayloadModel {
        elements: Seq::new(
            received.elements.len(),
            |i: int|
                completed_element(
                    start[i],
                    received.elements[i],
                    received.object_count as int,
                    received.bed_or_isf_objects as int,
                ),
        ),
        ..received
    }
}

/// A payload holds no more elements, objects and blocks than it declares.
pub open spec fn payload_fits(payload: OamdPayloadModel) -> bool {
    &&& payload.elements.len() <= payload.element_count
    &&& forall|i: int|
        0 <= i < payload.elements.len() ==> element_fits(
            #[trigger] payload.elements[i],
            payload.object_count as int,
        )
}

/// Every element's state is rectangular.
pub open spec fn states_wf(known: Seq<Option<Seq<Seq<OamdObjectBlockParseState>>>>) -> bool {
    forall|i: int| 0 <= i < known.len() ==> rectangular(#[trigger] known[i])
}

fn new_elements(count: usize) -> (r: Vec<OamdElementParseState>)
    ensures
        r@.len() == count,
        forall|i: int| 0 <= i < count ==> (#[trigger] r@[i])@ is None,
{
    let mut out: Vec<OamdElementParseState> = Vec::new();
    let mut i: usize = 0;
    while i < count
        invariant
            i <= count,
            out@.len() == i,
            forall|k: int| 0 <= k < i ==> (#[trigger] out@[k])@ is None,
        decreases count - i,
    {
        out.push(OamdElementParseState::new());
        i = i + 1;
    }
    out
}

impl Default for OamdPayloadParseState {
    fn default() -> (r: Self)
        ensures
            r@ == Seq::<Option<Seq<Seq<OamdObjectBlockParseState>>>>::empty(),
    {
        let r = OamdPayloadParseState { elements: Vec::new() };
        assert(r@ =~= Seq::<Option<Seq<Seq<OamdObjectBlockParseState>>>>::empty());
        r
    }
}

impl OamdPayloadParseState {
    /// Fill in the fields that `payload` omits and remember those it carries.
    pub fn resolve_payload(&mut self, payload: &mut OamdPayload)
        requires
            states_wf(old(self)@),
            payload_fits(old(payload)@),
        ensures
            states_wf(final(self)@),
            final(self)@ == next_elements(old(self)@, old(payload)@),
            final(payload)@ == completed_payload(old(self)@, old(payload)@),
    {
        let ghost known = self@;
        let ghost received = payload@;
        if self.elements.len() != payload.element_count {
            self.elements = new_elements(payload.element_count);
        }
        let ghost start = starting_elements(known, received.element_count as int);
        assert(self@ =~= start);
        let n: usize = payload.elements.len();
        let objects: usize = payload.object_count;
        let beds: usize = payload.bed_or_isf_objects;
        let ghost elements0 = payload.elements@;
        let ghost payload0 = *payload;
        let ghost states0 = self.elements@;
        assert forall|k: int| 0 <= k < states0.len() implies rectangular((#[trigger] states0[k])@) by {
            assert(rectangular(self@[k]));
        }
        assert forall|k: int| 0 <= k < n implies element_fits(
            (#[trigger] elements0[k])@,
            objects as int,
        ) by {
            assert(element_fits(received.elements[k], objects as int));
        }
        let mut i: usize = 0;
        while i < n
            invariant
                i <= n,
                n == elements0.len(),
                payload.elements@.len() == n,
                self.elements@.len() == states0.len(),
                n <= states0.len(),
                *payload == (OamdPayload { elements: payload.elements, ..payload0 }),
                forall|k: int| 0 <= k < states0.len() ==> rectangular((#[trigger] states0[k])@),
                forall|k: int|
                    0 <= k < n ==> element_fits((#[trigger] elements0[k])@, objects as int),
                forall|k: int|
                    0 <= k < i ==> {
                        &&& (#[trigger] self.elements@[k])@ == next_element(
                            states0[k]@,
                            elements0[k]@,
                            objects as int,
                            beds as int,
                        )
                        &&& rectangular(self.elements@[k]@)
                    },
                forall|k: int|
                    i <= k < states0.len() ==> #[trigger] self.elements@[k] == states0[k],
                forall|k: int|
                    0 <= k < i ==> (#[trigger] payload.elements@[k])@ == completed_element(
                        states0[k]@,
                        elements0[k]@,
                        objects as int,
                        beds as int,
                    ),
                forall|k: int| i <= k < n ==> #[trigger] payload.elements@[k] == elements0[k],
            decreases n - i,
        {
            assert(self.elements@[i as int] == states0[i as int]);
            assert(payload.elements@[i as int] == elements0[i as int]);
            self.elements[i].resolve_element(&mut payload.elements[i], objects, beds);
            i = i + 1;
        }
        proof {
            assert forall|k: int| 0 <= k < states0.len() implies states0[k]@ == start[k] by {}
            assert(self@ =~= next_elements(known, received));
            assert(payload@.elements =~= completed_payload(known, received).elements);
            assert forall|k: int| 0 <= k < self@.len() implies rectangular(#[trigger] self@[k]) by {
                assert(self@[k] == self.elements@[k]@);
                if k >= n {
                    assert(self.elements@[k] == states0[k]);
                }
            }
        }
    }
}

/// Metadata known across frames.
#[derive(Debug, Clone)]
pub struct MetadataParseState {
    pub oamd: OamdPayloadParseState,
}

impl Default for MetadataParseState {
    fn default() -> (r: Self)
        ensures
            r.oamd@ == Seq::<Option<Seq<Seq<OamdObjectBlockParseState>>>>::empty(),
    {
        MetadataParseState { oamd: OamdPayloadParseState::default() }
    }
}

impl MetadataParseState {
    /// Forget everything.
    pub fn reset(&mut self)
        ensures
            final(self).oamd@ == Seq::<Option<Seq<Seq<OamdObjectBlockParseState>>>>::empty(),
    {
        *self = MetadataParseState::default();
    }
}

/// A parsed object element has one row per object and one block per update.
proof fn lemma_object_element_fits(d: Seq<u8>, lim: int, p: int, objects: int, beds: int)
    requires
        objects >= 0,
    ensures
        object_element(d, lim, p, objects, beds) matches Ok((o, q)) ==> {
            &&& o.object_blocks.len() == objects
            &&& forall|i: int|
                0 <= i < o.object_blocks.len() ==> (#[trigger] o.object_blocks[i]).len()
                    == o.block_updates.len()
        },
{
    if let Ok((o, q)) = object_element(d, lim, p, objects, beds) {
        let blocks = o.block_updates.len() as int;
        let info = super::oamd::update_info(d, lim, p)->Ok_0;
        let p1 = info.1;
        let p2 = if crate::bits::flag(d, p1) { p1 + 1 } else { p1 + 6 };
        lemma_repeat_len(object_step(d, lim, blocks, beds), p2, objects);
        lemma_rows_len(d, lim, p2, blocks, beds, objects);
    }
}

proof fn lemma_rows_len(d: Seq<u8>, lim: int, p: int, blocks: int, beds: int, n: int)
    requires
        n >= 0,
        blocks >= 0,
    ensures
        repeat(object_step(d, lim, blocks, beds), p, n) matches Ok((list, q)) ==> forall|i: int|
            0 <= i < list.len() ==> (#[trigger] list[i]).len() == blocks,
    decreases n,
{
    if n > 0 {
        lemma_rows_len(d, lim, p, blocks, beds, n - 1);
        if let Ok((list, q)) = repeat(object_step(d, lim, blocks, beds), p, n - 1) {
            lemma_repeat_len(block_step(d, lim, n - 1 < beds), q, blocks);
        }
    }
}

proof fn lemma_element_fits(d: Seq<u8>, lim: int, p: int, alternate: bool, objects: int, beds: int)
    requires
        objects >= 0,
    ensures
        element(d, lim, p, alternate, objects, beds) matches Ok((e, q)) ==> element_fits(
            e,
            objects,
        ),
{
    reveal(super::oamd::element_kind);
    if let Ok((e, q)) = element(d, lim, p, alternate, objects, beds) {
        let (length, p1) = super::oamd::nibble_groups(
            d,
            lim,
            p + 4,
            4,
            0,
            "oa_element_length",
        )->Ok_0;
        let p2 = p1 + if alternate { 5int } else { 1int };
        lemma_object_element_fits(d, lim, p2, objects, beds);
    }
}

proof fn lemma_elements_fit(
    d: Seq<u8>,
    lim: int,
    p: int,
    alternate: bool,
    objects: int,
    beds: int,
    n: int,
)
    requires
        n >= 0,
        objects >= 0,
    ensures
        repeat(element_step(d, lim, alternate, objects, beds), p, n) matches Ok((list, q))
            ==> list.len() == n && forall|i: int|
            0 <= i < list.len() ==> element_fits(#[trigger] list[i], objects),
    decreases n,
{
    if n > 0 {
        lemma_elements_fit(d, lim, p, alternate, objects, beds, n - 1);
        if let Ok((list, q)) = repeat(element_step(d, lim, alternate, objects, beds), p, n - 1) {
            lemma_element_fits(d, lim, q, alternate, objects, beds);
        }
    }
}

/// A parsed payload holds exactly what it declares.
pub proof fn lemma_parsed_payload_fits(d: Seq<u8>, lim: int, p: int)
    ensures
        oamd_payload(d, lim, p) matches Ok((m, q)) ==> payload_fits(m),
{
    if let Ok((m, q)) = oamd_payload(d, lim, p) {
        let (version, p1) = super::oamd::oamd_version(d, lim, p)->Ok_0;
        let (objects, p2) = super::oamd::extended_count(
            d,
            lim,
            p1,
            5,
            7,
            1,
            "object_count",
            "object_count-ext",
        )->Ok_0;
        let (assignment, p3) = super::oamd::program(d, lim, p2)->Ok_0;
        let (count, p4) = super::oamd::extended_count(
            d,
            lim,
            p3 + 1,
            4,
            5,
            0,
            "oa_element_count",
            "oa_element_count-ext",
        )->Ok_0;
        lemma_elements_fit(
            d,
            lim,
            p4,
            crate::bits::flag(d, p3),
            objects as int,
            super::oamd::fixed_objects(assignment),
            count as int,
        );
    }
}

/// What a payload body of the given id holds, and what is known after it.
pub open spec fn payload_body(
    id: u8,
    d: Seq<u8>,
    known: Seq<Option<Seq<Seq<OamdObjectBlockParseState>>>>,
    r: Result<ParsedEmdfPayloadData, ParseError>,
    after: Seq<Option<Seq<Seq<OamdObjectBlockParseState>>>>,
) -> bool {
    let lim = 8 * d.len() as int;
    if id == 11 {
        match oamd_payload(d, lim, 0) {
            Err(e) => r == Err::<ParsedEmdfPayloadData, ParseError>(e) && after == known,
            Ok((m, q)) => {
                &&& r matches Ok(ParsedEmdfPayloadData::Oamd(v))
                &&& v@ == completed_payload(known, m)
                &&& after == next_elements(known, m)
            },
        }
    } else if id == 14 {
        after == known && match joc_payload(d, lim, 0) {
            Err(e) => r == Err::<ParsedEmdfPayloadData, ParseError>(e),
            Ok((m, q)) => {
                &&& r matches Ok(ParsedEmdfPayloadData::Joc(v))
                &&& v@ == m
            },
        }
    } else {
        &&& after == known
        &&& r matches Ok(ParsedEmdfPayloadData::Unknown)
    }
}

/// Parse the body of an EMDF payload by its id.
pub fn parse_emdf_payload_body_with_state(
    payload_id: u8,
    bytes: &[u8],
    state: &mut MetadataParseState,
) -> (r: Result<ParsedEmdfPayloadData, ParseError>)
    requires
        8 * bytes@.len() <= usize::MAX,
        states_wf(old(state).oamd@),
    ensures
        states_wf(final(state).oamd@),
        payload_body(payload_id, bytes@, old(state).oamd@, r, final(state).oamd@),
{
    let mut reader: BitReader = BitReader::new(bytes);
    reader.set_limit_bits(bytes.len() * 8);
    if payload_id == 11 {
        proof {
            lemma_parsed_payload_fits(bytes@, 8 * bytes@.len() as int, 0);
        }
        let mut payload: OamdPayload = parse_oamd_payload(&mut reader)?;
        state.oamd.resolve_payload(&mut payload);
        Ok(ParsedEmdfPayloadData::Oamd(payload))
    } else if payload_id == 14 {
        let payload: JocPayload = parse_joc_payload(&mut reader)?;
        Ok(ParsedEmdfPayloadData::Joc(payload))
    } else {
        Ok(ParsedEmdfPayloadData::Unknown)
    }
}

/// An object that a frame does not describe keeps everything known of it: with
/// neither basic nor render info, the completed block repeats the state.
pub proof fn omitted_fields_are_reused(
    state: OamdObjectBlockParseState,
    parsed: OamdObjectBlock,
)
    requires
        parsed.inactive || (parsed.basic_info_status % 2 == 0 && parsed.render_info_status % 2 == 0),
    ensures
        next_state(state, parsed, false) == state,
        completed(parsed, next_state(state, parsed, false)) == completed(parsed, state),
{
}

/// A completed block resolves to itself: receiving it again changes nothing.
pub proof fn completed_blocks_are_stable(
    state: OamdObjectBlockParseState,
    parsed: OamdObjectBlock,
    bed: bool,
)
    ensures
        ({
            let once = next_state(state, parsed, bed);
            next_state(once, completed(parsed, once), bed) == once
        }),
{
}

/// Render info without a position invalidates the position but keeps it.
pub proof fn position_is_invalidated_not_forgotten(
    state: OamdObjectBlockParseState,
    parsed: OamdObjectBlock,
)
    requires
        renders(parsed, false),
        !in_set(render_set(parsed), 0),
    ensures
        !next_state(state, parsed, false).valid_position,
        next_state(state, parsed, false).position == state.position,
        next_state(state, parsed, false).distance == state.distance,
        next_state(state, parsed, false).differential_position == state.differential_position,
{
}

} // verus!
