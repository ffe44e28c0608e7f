//! Where panes sit, as data.
//!
//! The tree holds **only ids**: an identity and a place, nothing else. What a pane *is* (its kind,
//! its title) lives in the registry the caller keeps, and what a pane *does* lives with whoever
//! draws it.
//!
//! A binary space partition rather than a flat list of panes: `PaneNode::Split` holds the axis and
//! the ratio, so a rectangle falls out of the tree arithmetically, closing a pane gives its area
//! to the sibling it shared a split with, and ratios survive a restart.

use vstd::prelude::*;

use crate::ratio::Ratio;
use crate::text::{copy, decimal, decimal_of, same};

verus! {

/// A pane's identity, stable while it is open.
///
/// A newtype rather than a bare `u64`: pane ids and session ids reach the same functions soon
/// enough, and swapping two integers is the kind of mistake that shows up as a pane closing
/// someone else's terminal.
#[derive(Debug, Clone, Copy, PartialEq, Eq, Hash, PartialOrd, Ord, Structural)]
pub struct PaneId(pub u64);

impl PaneId {
    pub fn new(raw: u64) -> (out: Self)
        ensures
            out == PaneId(raw),
    {
        PaneId(raw)
    }

    pub fn get(self) -> (out: u64)
        ensures
            out == self.0,
    {
        self.0
    }

    /// The number, written out.
    pub fn text(self) -> (out: String)
        ensures
            out@ == decimal(self.0 as nat),
    {
        decimal_of(self.0)
    }
}

/// The kinds of pane this app has, deliberately four. The workflow needs somewhere to talk,
/// somewhere to write the prompt files, a real shell, and a view of the tree.
#[derive(Debug, Clone, Copy, PartialEq, Eq, Hash, Structural)]
pub enum PaneKind {
    Chat,
    Editor,
    Terminal,
    FileTree,
}

/// A kind's name, lowercase, as it reads in a title and in `config.toml`.
pub open spec fn kind_name(kind: PaneKind) -> Seq<char> {
    match kind {
        PaneKind::Chat => "chat"@,
        PaneKind::Editor => "editor"@,
        PaneKind::Terminal => "terminal"@,
        PaneKind::FileTree => "files"@,
    }
}

impl PaneKind {
    pub const ALL: [PaneKind; 4] = [
        PaneKind::Chat,
        PaneKind::Editor,
        PaneKind::Terminal,
        PaneKind::FileTree,
    ];

    /// Lowercase, as it reads in a title and in `config.toml`.
    pub fn name(self) -> (out: &'static str)
        ensures
            out@ == kind_name(self),
    {
        match self {
            PaneKind::Chat => "chat",
            PaneKind::Editor => "editor",
            PaneKind::Terminal => "terminal",
            PaneKind::FileTree => "files",
        }
    }

    /// The kind a name in `config.toml` refers to.
    pub fn from_name(name: &str) -> (out: Option<Self>)
        ensures
            forall|kind: PaneKind| out == Some(kind) <==> name@ == #[trigger] kind_name(kind),
            out is None <==> forall|kind: PaneKind| name@ != #[trigger] kind_name(kind),
    {
        proof {
            law_kind_names_tell_kinds_apart();
        }
        if same(name, "chat") {
            assert(name@ == kind_name(PaneKind::Chat));
            Some(PaneKind::Chat)
        } else if same(name, "editor") {
            assert(name@ == kind_name(PaneKind::Editor));
            Some(PaneKind::Editor)
        } else if same(name, "terminal") {
            assert(name@ == kind_name(PaneKind::Terminal));
            Some(PaneKind::Terminal)
        } else if same(name, "files") {
            assert(name@ == kind_name(PaneKind::FileTree));
            Some(PaneKind::FileTree)
        } else {
            None
        }
    }
}

/// One pane's identity and what it calls itself. Geometry is the tree's business.
#[derive(Debug, Clone, PartialEq, Eq)]
pub struct PaneSpec {
    pub id: PaneId,
    pub kind: PaneKind,
    /// What the border shows. A pane renames itself once it knows what it holds; this is what it
    /// shows until then.
    pub title: String,
}

#[verifier::ext_equal]
pub struct PaneSpecView {
    pub id: PaneId,
    pub kind: PaneKind,
    pub title: Seq<char>,
}

impl View for PaneSpec {
    type V = PaneSpecView;

    open spec fn view(&self) -> PaneSpecView {
        PaneSpecView { id: self.id, kind: self.kind, title: self.title@ }
    }
}

impl PaneSpec {
    /// A pane with the default title for its kind.
    pub fn new(id: PaneId, kind: PaneKind) -> (out: Self)
        ensures
            out@ == (PaneSpecView { id, kind, title: kind_name(kind) }),
    {
        PaneSpec { id, kind, title: copy(kind.name()) }
    }

    pub fn with_title(self, title: &str) -> (out: Self)
        ensures
            out@ == (PaneSpecView { title: title@, ..self@ }),
    {
        PaneSpec { id: self.id, kind: self.kind, title: copy(title) }
    }
}

/// Which way a split divides its area.
///
/// `Horizontal` puts the two children side by side and divides the *width*. Mixing the two up is
/// the classic split bug, so the variant names say where the children go, not where the line is.
#[derive(Debug, Clone, Copy, PartialEq, Eq, Structural)]
pub enum Axis {
    Horizontal,
    Vertical,
}

// ---------------------------------------------------------------------------------------------
// Rectangles

/// A rectangle in cells, relative to the area handed to [`PaneTree::rects`].
#[derive(Debug, Clone, Copy, PartialEq, Eq, Structural)]
pub struct Rect {
    pub x: u16,
    pub y: u16,
    pub width: u16,
    pub height: u16,
}

impl Rect {
    /// Whether a cell is inside. The right and bottom edges are outside: `x + width` is the first
    /// column the rectangle does not cover.
    pub open spec fn holds(self, x: int, y: int) -> bool {
        self.x <= x < self.x + self.width && self.y <= y < self.y + self.height
    }

    /// Whether every cell has a column and a row a `u16` can name.
    pub open spec fn on_screen(self) -> bool {
        self.x + self.width <= u16::MAX && self.y + self.height <= u16::MAX
    }

    /// The first half of a split.
    pub open spec fn first_half(self, axis: Axis, ratio: Ratio) -> Rect {
        match axis {
            Axis::Horizontal => Rect { width: ratio.part(self.width) as u16, ..self },
            Axis::Vertical => Rect { height: ratio.part(self.height) as u16, ..self },
        }
    }

    /// The second half of a split: what the first half leaves.
    pub open spec fn second_half(self, axis: Axis, ratio: Ratio) -> Rect {
        match axis {
            Axis::Horizontal => Rect {
                x: (self.x + ratio.part(self.width)) as u16,
                width: (self.width - ratio.part(self.width)) as u16,
                ..self
            },
            Axis::Vertical => Rect {
                y: (self.y + ratio.part(self.height)) as u16,
                height: (self.height - ratio.part(self.height)) as u16,
                ..self
            },
        }
    }

    /// Whether the second half of a split begins at a cell a `u16` can name.
    pub open spec fn splits(self, axis: Axis, ratio: Ratio) -> bool {
        match axis {
            Axis::Horizontal => self.x + ratio.part(self.width) <= u16::MAX,
            Axis::Vertical => self.y + ratio.part(self.height) <= u16::MAX,
        }
    }

    pub fn new(x: u16, y: u16, width: u16, height: u16) -> (out: Self)
        ensures
            out == (Rect { x, y, width, height }),
    {
        Rect { x, y, width, height }
    }

    /// Whether a cell is inside.
    ///
    /// A cell to the left or above is told apart before anything is subtracted, so it can never
    /// overflow into a false hit, not even where a rectangle runs past the last cell.
    pub fn contains(self, x: u16, y: u16) -> (out: bool)
        ensures
            out == self.holds(x as int, y as int),
    {
        self.x <= x && x - self.x < self.width && self.y <= y && y - self.y < self.height
    }

    /// How many cells a pane covers.
    pub fn area(self) -> (out: u32)
        ensures
            out == self.width * self.height,
    {
        assert(0 <= self.width * self.height <= 0xffff * 0xffff) by (nonlinear_arith)
            requires
                0 <= self.width <= 0xffff,
                0 <= self.height <= 0xffff,
        ;
        self.width as u32 * self.height as u32
    }

    fn split(self, axis: Axis, ratio: Ratio) -> (out: (Self, Self))
        requires
            self.splits(axis, ratio),
        ensures
            out.0 == self.first_half(axis, ratio),
            out.1 == self.second_half(axis, ratio),
    {
        match axis {
            Axis::Horizontal => {
                let first: u16 = ratio.part_of(self.width);
                (
                    Rect::new(self.x, self.y, first, self.height),
                    Rect::new(self.x + first, self.y, self.width - first, self.height),
                )
            },
            Axis::Vertical => {
                let first: u16 = ratio.part_of(self.height);
                (
                    Rect::new(self.x, self.y, self.width, first),
                    Rect::new(self.x, self.y + first, self.width, self.height - first),
                )
            },
        }
    }
}

// ---------------------------------------------------------------------------------------------
// Nodes

/// One node of the split tree.
#[derive(Debug, PartialEq)]
pub enum PaneNode {
    Leaf(PaneId),
    Split {
        axis: Axis,
        /// How much of the axis the first child gets. Kept in the tree (and persisted) so a
        /// resize survives a restart, and clamped so neither child can be squeezed to nothing.
        ratio: Ratio,
        first: Box<PaneNode>,
        second: Box<PaneNode>,
    },
}

impl Clone for PaneNode {
    fn clone(&self) -> (out: Self)
        ensures
            out == *self,
        decreases self,
    {
        match self {
            PaneNode::Leaf(id) => PaneNode::Leaf(*id),
            PaneNode::Split { axis, ratio, first, second } => PaneNode::Split {
                axis: *axis,
                ratio: *ratio,
                first: Box::new((&**first).clone()),
                second: Box::new((&**second).clone()),
            },
        }
    }
}

impl PaneNode {
    /// The panes, left to right and top to bottom.
    pub open spec fn panes(self) -> Seq<PaneId>
        decreases self,
    {
        match self {
            PaneNode::Leaf(id) => seq![id],
            PaneNode::Split { first, second, .. } => first.panes() + second.panes(),
        }
    }

    /// Every ratio is within its bounds.
    pub open spec fn steady(self) -> bool
        decreases self,
    {
        match self {
            PaneNode::Leaf(_) => true,
            PaneNode::Split { ratio, first, second, .. } => ratio.steady() && first.steady()
                && second.steady(),
        }
    }

    /// The tree without a pane; nothing when the pane was all there was.
    ///
    /// A split one side of which was the pane becomes its other side.
    pub open spec fn without(self, id: PaneId) -> Option<PaneNode>
        decreases self,
    {
        match self {
            PaneNode::Leaf(leaf) => if leaf == id {
                None
            } else {
                Some(self)
            },
            PaneNode::Split { axis, ratio, first, second } => if first.panes().contains(id) {
                match first.without(id) {
                    None => Some(*second),
                    Some(rest) => Some(
                        PaneNode::Split { axis, ratio, first: Box::new(rest), second },
                    ),
                }
            } else {
                match second.without(id) {
                    None => Some(*first),
                    Some(rest) => Some(
                        PaneNode::Split { axis, ratio, first, second: Box::new(rest) },
                    ),
                }
            },
        }
    }

    /// The tree with a pane beside another: the one that was there keeps the first half.
    pub open spec fn with_beside(self, near: PaneId, id: PaneId, axis: Axis) -> PaneNode
        decreases self,
    {
        match self {
            PaneNode::Leaf(leaf) => if leaf == near {
                PaneNode::Split {
                    axis,
                    ratio: Ratio { bits: crate::ratio::HALF },
                    first: Box::new(self),
                    second: Box::new(PaneNode::Leaf(id)),
                }
            } else {
                self
            },
            PaneNode::Split { axis: a, ratio, first, second } => if first.panes().contains(near) {
                PaneNode::Split {
                    axis: a,
                    ratio,
                    first: Box::new(first.with_beside(near, id, axis)),
                    second,
                }
            } else {
                PaneNode::Split {
                    axis: a,
                    ratio,
                    first,
                    second: Box::new(second.with_beside(near, id, axis)),
                }
            },
        }
    }

    /// The tree with a new ratio on the deepest split that holds a pane, the one between it and
    /// its immediate neighbour; nothing when no split holds it.
    pub open spec fn with_ratio(self, id: PaneId, new: Ratio) -> Option<PaneNode>
        decreases self,
    {
        match self {
            PaneNode::Leaf(_) => None,
            PaneNode::Split { axis, ratio, first, second } => if !self.panes().contains(id) {
                None
            } else {
                match (first.with_ratio(id, new), second.with_ratio(id, new)) {
                    (Some(inner), _) => Some(
                        PaneNode::Split { axis, ratio, first: Box::new(inner), second },
                    ),
                    (None, Some(inner)) => Some(
                        PaneNode::Split { axis, ratio, first, second: Box::new(inner) },
                    ),
                    (None, None) => Some(
                        PaneNode::Split { axis, ratio: new.clamp_view(), first, second },
                    ),
                }
            },
        }
    }

    /// The ratio of the deepest split that holds a pane.
    pub open spec fn ratio_at(self, id: PaneId) -> Option<Ratio>
        decreases self,
    {
        match self {
            PaneNode::Leaf(_) => None,
            PaneNode::Split { ratio, first, second, .. } => match (
                second.ratio_at(id),
                first.ratio_at(id),
            ) {
                (Some(inner), _) => Some(inner),
                (None, Some(inner)) => Some(inner),
                (None, None) => if self.panes().contains(id) {
                    Some(ratio)
                } else {
                    None
                },
            },
        }
    }

    /// Where each pane goes inside an area.
    pub open spec fn places(self, area: Rect) -> Seq<(PaneId, Rect)>
        decreases self,
    {
        match self {
            PaneNode::Leaf(id) => seq![(id, area)],
            PaneNode::Split { axis, ratio, first, second } => first.places(
                area.first_half(axis, ratio),
            ) + second.places(area.second_half(axis, ratio)),
        }
    }

    /// Whether every split of an area begins its second half at a cell a `u16` can name.
    pub open spec fn fits(self, area: Rect) -> bool
        decreases self,
    {
        match self {
            PaneNode::Leaf(_) => true,
            PaneNode::Split { axis, ratio, first, second } => {
                &&& area.splits(axis, ratio)
                &&& first.fits(area.first_half(axis, ratio))
                &&& second.fits(area.second_half(axis, ratio))
            },
        }
    }

    fn leaves(&self, out: &mut Vec<PaneId>)
        ensures
            final(out)@ == old(out)@ + self.panes(),
        decreases self,
    {
        match self {
            PaneNode::Leaf(id) => {
                out.push(*id);
                assert(out@ =~= old(out)@ + self.panes());
            },
            PaneNode::Split { first, second, .. } => {
                first.leaves(out);
                second.leaves(out);
                assert(out@ =~= old(out)@ + self.panes());
            },
        }
    }

    fn contains(&self, id: PaneId) -> (out: bool)
        ensures
            out == self.panes().contains(id),
        decreases self,
    {
        match self {
            PaneNode::Leaf(leaf) => {
                assert(self.panes()[0] == *leaf);
                *leaf == id
            },
            PaneNode::Split { first, second, .. } => {
                proof {
                    lemma_either(first.panes(), second.panes(), id);
                }
                first.contains(id) || second.contains(id)
            },
        }
    }

    fn rects(&self, area: Rect, out: &mut Vec<(PaneId, Rect)>)
        requires
            self.fits(area),
        ensures
            final(out)@ == old(out)@ + self.places(area),
        decreases self,
    {
        match self {
            PaneNode::Leaf(id) => {
                out.push((*id, area));
                assert(out@ =~= old(out)@ + self.places(area));
            },
            PaneNode::Split { axis, ratio, first, second } => {
                let (a, b) = area.split(*axis, *ratio);
                first.rects(a, out);
                second.rects(b, out);
                assert(out@ =~= old(out)@ + self.places(area));
            },
        }
    }

    /// Remove `id` from this subtree.
    ///
    /// `None` means *this subtree was the pane*: the parent has to replace the whole node with the
    /// sibling, which is how a closed pane's area goes to whoever it shared a split with instead of
    /// leaving a hole.
    fn remove(self, id: PaneId) -> (out: Option<PaneNode>)
        ensures
            out == self.without(id),
        decreases self,
    {
        match self {
            PaneNode::Leaf(leaf) => if leaf == id {
                None
            } else {
                Some(PaneNode::Leaf(leaf))
            },
            PaneNode::Split { axis, ratio, first, second } => {
                if first.contains(id) {
                    match (*first).remove(id) {
                        // The first branch *was* the pane: this split collapses into its sibling,
                        // which is how the closed pane's area is handed over instead of left empty.
                        None => Some(*second),
                        Some(first) => Some(
                            PaneNode::Split { axis, ratio, first: Box::new(first), second },
                        ),
                    }
                } else if second.contains(id) {
                    match (*second).remove(id) {
                        None => Some(*first),
                        Some(second) => Some(
                            PaneNode::Split { axis, ratio, first, second: Box::new(second) },
                        ),
                    }
                } else {
                    proof {
                        lemma_without_absent(*second, id);
                    }
                    Some(PaneNode::Split { axis, ratio, first, second })
                }
            },
        }
    }

    fn split_at(self, near: PaneId, id: PaneId, axis: Axis) -> (out: PaneNode)
        ensures
            out == self.with_beside(near, id, axis),
        decreases self,
    {
        match self {
            PaneNode::Leaf(leaf) => if leaf == near {
                PaneNode::Split {
                    axis,
                    ratio: Ratio::half(),
                    first: Box::new(PaneNode::Leaf(leaf)),
                    second: Box::new(PaneNode::Leaf(id)),
                }
            } else {
                PaneNode::Leaf(leaf)
            },
            PaneNode::Split { axis: a, ratio, first, second } => if first.contains(near) {
                PaneNode::Split {
                    axis: a,
                    ratio,
                    first: Box::new((*first).split_at(near, id, axis)),
                    second,
                }
            } else {
                PaneNode::Split {
                    axis: a,
                    ratio,
                    first,
                    second: Box::new((*second).split_at(near, id, axis)),
                }
            },
        }
    }

    /// Set the ratio of the *deepest* split that still contains `id`: the one between it and its
    /// immediate neighbour, which is the one a drag on that border means.
    fn set_ratio(self, id: PaneId, new: Ratio) -> (out: (PaneNode, bool))
        ensures
            out.1 == (self.with_ratio(id, new) is Some),
            out.0 == match self.with_ratio(id, new) {
                Some(node) => node,
                None => self,
            },
        decreases self,
    {
        let here = self.contains(id);
        match self {
            PaneNode::Leaf(leaf) => (PaneNode::Leaf(leaf), false),
            PaneNode::Split { axis, ratio, first, second } => {
                if !here {
                    return (PaneNode::Split { axis, ratio, first, second }, false);
                }
                let (first, done) = (*first).set_ratio(id, new);
                if done {
                    return (
                        PaneNode::Split { axis, ratio, first: Box::new(first), second },
                        true,
                    );
                }
                let (second, done) = (*second).set_ratio(id, new);
                let ratio = if done {
                    ratio
                } else {
                    new.clamped()
                };
                (
                    PaneNode::Split {
                        axis,
                        ratio,
                        first: Box::new(first),
                        second: Box::new(second),
                    },
                    true,
                )
            },
        }
    }

    fn ratio_of(&self, id: PaneId) -> (out: Option<Ratio>)
        ensures
            out == self.ratio_at(id),
        decreases self,
    {
        match self {
            PaneNode::Leaf(_) => None,
            PaneNode::Split { ratio, first, second, .. } => {
                match second.ratio_of(id) {
                    Some(inner) => Some(inner),
                    None => match first.ratio_of(id) {
                        Some(inner) => Some(inner),
                        None => if self.contains(id) {
                            Some(*ratio)
                        } else {
                            None
                        },
                    },
                }
            },
        }
    }
}

proof fn lemma_either(a: Seq<PaneId>, b: Seq<PaneId>, id: PaneId)
    ensures
        (a + b).contains(id) <==> a.contains(id) || b.contains(id),
{
    if a.contains(id) {
        let i = choose|i: int| 0 <= i < a.len() && a[i] == id;
        assert((a + b)[i] == id);
    }
    if b.contains(id) {
        let i = choose|i: int| 0 <= i < b.len() && b[i] == id;
        assert((a + b)[a.len() + i] == id);
    }
}

proof fn lemma_without_absent(node: PaneNode, id: PaneId)
    requires
        !node.panes().contains(id),
    ensures
        node.without(id) == Some(node),
    decreases node,
{
    match node {
        PaneNode::Leaf(leaf) => {
            assert(node.panes()[0] == leaf);
        },
        PaneNode::Split { first, second, .. } => {
            lemma_either(first.panes(), second.panes(), id);
            lemma_without_absent(*second, id);
        },
    }
}

// ---------------------------------------------------------------------------------------------
// The tree

/// The panes that exist, how they are split, and which one has the keyboard.
#[derive(Debug, PartialEq)]
pub struct PaneTree {
    root: Option<PaneNode>,
    focus: Option<PaneId>,
    /// Where focus came from. Closing the focused pane hands the keyboard back here first, which is
    /// what makes "close this terminal" return the user to what they were writing in.
    prev_focus: Option<PaneId>,
    next: u64,
}

/// What a tree of panes is: the layout, the keyboard, where the keyboard came from, and the largest
/// id that was ever in use.
pub struct PaneTreeView {
    pub root: Option<PaneNode>,
    pub focus: Option<PaneId>,
    pub previous: Option<PaneId>,
    pub next: u64,
}

/// The first place of a pane in an order, from a place on.
pub open spec fn place_of(order: Seq<PaneId>, id: PaneId, from: int) -> Option<int>
    decreases order.len() - from,
{
    if from < 0 || from >= order.len() {
        None
    } else if order[from] == id {
        Some(from)
    } else {
        place_of(order, id, from + 1)
    }
}

/// The panes to try, once the one at a place has closed: those that followed it, then those before
/// it, the nearest first.
pub open spec fn neighbours(order: Seq<PaneId>, place: int) -> Seq<PaneId> {
    order.skip(place + 1) + order.take(place).reverse()
}

/// The first pane of a list that is still open.
pub open spec fn first_open(candidates: Seq<PaneId>, open: Seq<PaneId>) -> Option<PaneId>
    decreases candidates.len(),
{
    if candidates.len() == 0 {
        None
    } else if open.contains(candidates[0]) {
        Some(candidates[0])
    } else {
        first_open(candidates.drop_first(), open)
    }
}

impl PaneTreeView {
    pub open spec fn empty() -> PaneTreeView {
        PaneTreeView { root: None, focus: None, previous: None, next: 0 }
    }

    /// Every pane, left to right and top to bottom.
    pub open spec fn panes(self) -> Seq<PaneId> {
        match self.root {
            Some(root) => root.panes(),
            None => Seq::empty(),
        }
    }

    /// The keyboard is with a pane that is open whenever there is one, it came from one that is
    /// open, every ratio is within its bounds, and no open pane has an id the counter has not
    /// reached.
    pub open spec fn wf(self) -> bool {
        &&& self.focus is Some <==> self.root is Some
        &&& self.focus is Some ==> self.panes().contains(self.focus->0)
        &&& self.previous is Some ==> self.panes().contains(self.previous->0)
        &&& self.root is Some ==> self.root->0.steady()
        &&& forall|i: int| 0 <= i < self.panes().len() ==> (#[trigger] self.panes()[i]).0 <= self.next
    }

    pub open spec fn reserved(self, id: PaneId) -> PaneTreeView {
        PaneTreeView {
            next: if id.0 > self.next {
                id.0
            } else {
                self.next
            },
            ..self
        }
    }

    /// With a pane put in: alone when the tree was empty, else beside everything that is there.
    pub open spec fn inserted(self, id: PaneId, axis: Axis) -> PaneTreeView {
        PaneTreeView {
            root: match self.root {
                None => Some(PaneNode::Leaf(id)),
                Some(root) => Some(
                    PaneNode::Split {
                        axis,
                        ratio: Ratio { bits: crate::ratio::HALF },
                        first: Box::new(root),
                        second: Box::new(PaneNode::Leaf(id)),
                    },
                ),
            },
            focus: match self.focus {
                None => Some(id),
                Some(focus) => Some(focus),
            },
            ..self.reserved(id)
        }
    }

    /// With the keyboard at a pane.
    pub open spec fn focused(self, id: PaneId) -> PaneTreeView {
        if self.focus == Some(id) {
            self
        } else {
            PaneTreeView { focus: Some(id), previous: self.focus, ..self }
        }
    }

    /// With a pane split in two and the keyboard at the new half.
    pub open spec fn divided(self, near: PaneId, id: PaneId, axis: Axis) -> PaneTreeView {
        PaneTreeView {
            root: Some(self.root->0.with_beside(near, id, axis)),
            ..self.reserved(id)
        }.focused(id)
    }

    /// Where the keyboard goes once a pane has closed: back where it came from, else to the pane
    /// that followed, else to the one before.
    pub open spec fn heir(self, id: PaneId, open: Seq<PaneId>) -> Option<PaneId> {
        match self.previous {
            Some(previous) if previous != id && open.contains(previous) => Some(previous),
            _ => match place_of(self.panes(), id, 0) {
                Some(place) => first_open(neighbours(self.panes(), place), open),
                None => None,
            },
        }
    }

    /// With a pane closed.
    pub open spec fn closed(self, id: PaneId) -> PaneTreeView {
        match self.root->0.without(id) {
            None => PaneTreeView { root: None, focus: None, previous: None, next: self.next },
            Some(root) => PaneTreeView {
                root: Some(root),
                focus: self.heir(id, root.panes()),
                previous: if self.previous == Some(id) {
                    None
                } else {
                    self.previous
                },
                next: self.next,
            },
        }
    }

    /// Whether an area can be divided: it ends on the screen, or at least every split does.
    pub open spec fn fits(self, area: Rect) -> bool {
        area.on_screen() || match self.root {
            Some(root) => root.fits(area),
            None => true,
        }
    }

    pub open spec fn places(self, area: Rect) -> Seq<(PaneId, Rect)> {
        match self.root {
            Some(root) => root.places(area),
            None => Seq::empty(),
        }
    }

    pub open spec fn ratio_at(self, id: PaneId) -> Option<Ratio> {
        match self.root {
            Some(root) => root.ratio_at(id),
            None => None,
        }
    }
}

impl View for PaneTree {
    type V = PaneTreeView;

    closed spec fn view(&self) -> PaneTreeView {
        PaneTreeView {
            root: self.root,
            focus: self.focus,
            previous: self.prev_focus,
            next: self.next,
        }
    }
}

impl Clone for PaneTree {
    fn clone(&self) -> (out: Self)
        ensures
            out@ == self@,
    {
        proof {
            use_type_invariant(self);
        }
        let root: Option<PaneNode> = match &self.root {
            Some(root) => Some(root.clone()),
            None => None,
        };
        PaneTree { root, focus: self.focus, prev_focus: self.prev_focus, next: self.next }
    }
}

impl Default for PaneTree {
    fn default() -> (out: Self)
        ensures
            out@ == PaneTreeView::empty(),
            out@.wf(),
    {
        PaneTree { root: None, focus: None, prev_focus: None, next: 0 }
    }
}

fn place(order: &Vec<PaneId>, id: PaneId) -> (out: Option<usize>)
    ensures
        match out {
            Some(i) => i < order.len() && place_of(order@, id, 0) == Some(i as int),
            None => place_of(order@, id, 0) is None,
        },
{
    let mut i: usize = 0;
    while i < order.len()
        invariant
            i <= order@.len(),
            place_of(order@, id, 0) == place_of(order@, id, i as int),
        decreases order@.len() - i,
    {
        if order[i] == id {
            return Some(i);
        }
        i += 1;
    }
    None
}

impl PaneTree {
    #[verifier::type_invariant]
    pub closed spec fn sound(self) -> bool {
        self@.wf()
    }

    pub fn new() -> (out: Self)
        ensures
            out@ == PaneTreeView::empty(),
            out@.wf(),
    {
        PaneTree::default()
    }

    pub fn is_empty(&self) -> (out: bool)
        ensures
            out == (self@.root is None),
    {
        self.root.is_none()
    }

    pub fn len(&self) -> (out: usize)
        ensures
            out == self@.panes().len(),
    {
        self.leaves().len()
    }

    /// Every pane id, in the order they appear in the split tree (left to right, top to bottom).
    pub fn leaves(&self) -> (out: Vec<PaneId>)
        ensures
            out@ == self@.panes(),
    {
        let mut out: Vec<PaneId> = Vec::new();
        match &self.root {
            Some(root) => root.leaves(&mut out),
            None => {},
        }
        assert(out@ =~= self@.panes());
        out
    }

    pub fn contains(&self, id: PaneId) -> (out: bool)
        ensures
            out == self@.panes().contains(id),
    {
        match &self.root {
            Some(root) => root.contains(id),
            None => false,
        }
    }

    pub fn focused_id(&self) -> (out: Option<PaneId>)
        ensures
            out == self@.focus,
    {
        self.focus
    }

    pub fn previous_focus(&self) -> (out: Option<PaneId>)
        ensures
            out == self@.previous,
    {
        self.prev_focus
    }

    /// The next unused id.
    ///
    /// Ids are never reused: a pane that closed is still named in the transcript and in the log,
    /// and an id that came to mean a *different* pane is worse than a gap in the numbering, which
    /// is why the counter lives here and not in the layout: emptying it must not restart at one.
    pub fn next_id(&mut self) -> (out: PaneId)
        requires
            old(self)@.next < u64::MAX,
        ensures
            out == PaneId((old(self)@.next + 1) as u64),
            final(self)@ == (PaneTreeView { next: out.0, ..old(self)@ }),
            final(self)@.wf(),
    {
        proof {
            use_type_invariant(&*self);
        }
        self.next = self.next + 1;
        PaneId::new(self.next)
    }

    /// Keep the counter ahead of an id that arrived from outside (a restored session).
    pub fn reserve(&mut self, id: PaneId)
        ensures
            final(self)@ == old(self)@.reserved(id),
            final(self)@.wf(),
    {
        proof {
            use_type_invariant(&*self);
        }
        if id.get() > self.next {
            self.next = id.get();
        }
    }

    /// Put the first pane in, or add another one beside the whole tree.
    ///
    /// An empty tree adopts the pane; a tree with panes in it splits the root, which is what
    /// "open another pane" means when there is no pane to split *near*.
    pub fn insert(&mut self, id: PaneId, axis: Axis)
        ensures
            final(self)@ == old(self)@.inserted(id, axis),
            final(self)@.wf(),
    {
        let mut before = PaneTree::new();
        std::mem::swap(self, &mut before);
        proof {
            use_type_invariant(&before);
            law_operations_keep_a_tree_sound(before@, id, id, axis);
        }
        let PaneTree { root, focus, prev_focus, next } = before;
        let root = match root {
            None => PaneNode::Leaf(id),
            Some(root) => PaneNode::Split {
                axis,
                ratio: Ratio::half(),
                first: Box::new(root),
                second: Box::new(PaneNode::Leaf(id)),
            },
        };
        let focus: Option<PaneId> = match focus {
            None => Some(id),
            Some(focus) => Some(focus),
        };
        let next: u64 = if id.get() > next {
            id.get()
        } else {
            next
        };
        *self = PaneTree { root: Some(root), focus, prev_focus, next };
    }

    /// Split the pane `near` in two, putting `id` in the new half.
    ///
    /// `false` when `near` is not open. Focus follows the new pane: the agent opened it to show
    /// something, and the user asked for the split.
    pub fn split(&mut self, near: PaneId, id: PaneId, axis: Axis) -> (out: bool)
        ensures
            out == old(self)@.panes().contains(near),
            final(self)@ == if out {
                old(self)@.divided(near, id, axis)
            } else {
                old(self)@
            },
            final(self)@.wf(),
    {
        proof {
            use_type_invariant(&*self);
            if self@.panes().contains(near) {
                law_operations_keep_a_tree_sound(self@, near, id, axis);
            }
        }
        if !self.contains(near) {
            return false;
        }
        let mut before = PaneTree::new();
        std::mem::swap(self, &mut before);
        let PaneTree { root, focus, prev_focus, next } = before;
        let next: u64 = if id.get() > next {
            id.get()
        } else {
            next
        };
        match root {
            Some(root) => {
                let root = root.split_at(near, id, axis);
                let previous: Option<PaneId> = match focus {
                    Some(focus) if focus == id => prev_focus,
                    _ => focus,
                };
                *self = PaneTree { root: Some(root), focus: Some(id), prev_focus: previous, next };
                true
            },
            None => false,
        }
    }

    /// Close a pane and hand its area to the sibling it shared a split with.
    ///
    /// `false` when it is not open.
    pub fn close(&mut self, id: PaneId) -> (out: bool)
        ensures
            out == old(self)@.panes().contains(id),
            final(self)@ == if out {
                old(self)@.closed(id)
            } else {
                old(self)@
            },
            final(self)@.wf(),
    {
        proof {
            use_type_invariant(&*self);
            if self@.panes().contains(id) {
                law_closing_keeps_a_tree_sound(self@, id);
            }
        }
        if !self.contains(id) {
            return false;
        }
        // Focus is decided against the layout *before* the removal: "the pane after the one that
        // closed" is a fact about where it was, not about where its sibling ended up.
        let order = self.leaves();
        let mut before = PaneTree::new();
        std::mem::swap(self, &mut before);
        let ghost was = before@;
        let PaneTree { root, focus: _, prev_focus, next } = before;
        match root {
            Some(root) => match root.remove(id) {
                None => {
                    *self = PaneTree { root: None, focus: None, prev_focus: None, next };
                },
                Some(root) => {
                    let focus = focus_after_close(&root, prev_focus, id, &order);
                    let previous: Option<PaneId> = match prev_focus {
                        Some(previous) if previous == id => None,
                        _ => prev_focus,
                    };
                    assert(focus == was.heir(id, root.panes()));
                    *self = PaneTree { root: Some(root), focus, prev_focus: previous, next };
                },
            },
            None => {},
        }
        true
    }

    /// Move the keyboard to a pane. `false` when it is not open.
    pub fn set_focus(&mut self, id: PaneId) -> (out: bool)
        ensures
            out == old(self)@.panes().contains(id),
            final(self)@ == if out {
                old(self)@.focused(id)
            } else {
                old(self)@
            },
            final(self)@.wf(),
    {
        proof {
            use_type_invariant(&*self);
        }
        if !self.contains(id) {
            return false;
        }
        let already = match self.focus {
            Some(focus) => focus == id,
            None => false,
        };
        if !already {
            self.prev_focus = self.focus;
            self.focus = Some(id);
        }
        true
    }

    /// Hand the keyboard back to the pane it came from. `false` when there is none.
    pub fn focus_previous(&mut self) -> (out: bool)
        ensures
            out == (old(self)@.previous is Some),
            final(self)@ == if out {
                PaneTreeView {
                    focus: old(self)@.previous,
                    previous: old(self)@.focus,
                    ..old(self)@
                }
            } else {
                old(self)@
            },
            final(self)@.wf(),
    {
        proof {
            use_type_invariant(&*self);
        }
        match self.prev_focus {
            Some(previous) => {
                let current = self.focus;
                self.focus = Some(previous);
                self.prev_focus = current;
                true
            },
            None => false,
        }
    }

    /// Move focus to the next pane in layout order, wrapping at the end.
    pub fn cycle_focus(&mut self) -> (out: Option<PaneId>)
        ensures
            out == final(self)@.focus,
            ({
                let order = old(self)@.panes();
                final(self)@ == if order.len() == 0 {
                    old(self)@
                } else {
                    old(self)@.focused(
                        order[(place_of(order, old(self)@.focus->0, 0)->0 + 1) % (
                        order.len() as int)],
                    )
                }
            }),
            final(self)@.wf(),
    {
        proof {
            use_type_invariant(&*self);
            lemma_panes_exist(self@);
        }
        let order = self.leaves();
        let focus = match self.focus {
            Some(focus) => focus,
            None => {
                return None;
            },
        };
        proof {
            lemma_place_found(order@, focus, 0);
        }
        let next: usize = match place(&order, focus) {
            Some(index) => (index + 1) % order.len(),
            None => 0,
        };
        assert(order@.contains(order@[next as int]));
        let _ = self.set_focus(order[next]);
        self.focus
    }

    /// Set the ratio of the split that holds `id`. Clamped, so no pane can be squeezed away.
    ///
    /// `false` when no split holds it.
    pub fn set_ratio(&mut self, id: PaneId, ratio: Ratio) -> (out: bool)
        ensures
            out == (old(self)@.ratio_at(id) is Some),
            final(self)@ == if out {
                PaneTreeView { root: old(self)@.root->0.with_ratio(id, ratio), ..old(self)@ }
            } else {
                old(self)@
            },
            final(self)@.wf(),
    {
        let mut before = PaneTree::new();
        std::mem::swap(self, &mut before);
        proof {
            use_type_invariant(&before);
            if before.root is Some {
                lemma_with_ratio(before.root->0, id, ratio);
            }
        }
        let PaneTree { root, focus, prev_focus, next } = before;
        let (root, done): (Option<PaneNode>, bool) = match root {
            Some(root) => {
                let (root, done) = root.set_ratio(id, ratio);
                (Some(root), done)
            },
            None => (None, false),
        };
        *self = PaneTree { root, focus, prev_focus, next };
        done
    }

    /// The ratio of the split that holds `id`, if it is in one.
    pub fn ratio_of(&self, id: PaneId) -> (out: Option<Ratio>)
        ensures
            out == self@.ratio_at(id),
    {
        match &self.root {
            Some(root) => root.ratio_of(id),
            None => None,
        }
    }

    /// Where every pane goes inside `area`, in layout order.
    ///
    /// The rectangles tile the area exactly: the split arithmetic takes the first child's size
    /// from the ratio and gives the second the remainder, so no cell is lost or drawn twice.
    pub fn rects(&self, area: Rect) -> (out: Vec<(PaneId, Rect)>)
        requires
            self@.fits(area),
        ensures
            out@ == self@.places(area),
    {
        let mut out: Vec<(PaneId, Rect)> = Vec::new();
        match &self.root {
            Some(root) => {
                proof {
                    if area.on_screen() {
                        lemma_on_screen_fits(*root, area);
                    }
                }
                root.rects(area, &mut out);
            },
            None => {},
        }
        assert(out@ =~= self@.places(area));
        out
    }
}

/// Where the keyboard goes after `closed` was removed: back where focus came from, else the pane
/// that followed it, else the one before it.
fn focus_after_close(
    root: &PaneNode,
    prev_focus: Option<PaneId>,
    closed: PaneId,
    order_before: &Vec<PaneId>,
) -> (out: Option<PaneId>)
    ensures
        forall|was: PaneTreeView|
            was.previous == prev_focus && was.panes() == order_before@ ==> out
                == #[trigger] was.heir(closed, root.panes()),
{
    let ghost open = root.panes();
    match prev_focus {
        Some(previous) => {
            if previous != closed && root.contains(previous) {
                return Some(previous);
            }
        },
        None => {},
    }
    let index: usize = match place(order_before, closed) {
        Some(index) => index,
        None => {
            return None;
        },
    };
    let ghost all = neighbours(order_before@, index as int);
    let mut i: usize = index + 1;
    assert(all.skip(0) =~= all);
    while i < order_before.len()
        invariant
            index < i <= order_before@.len(),
            open == root.panes(),
            !(prev_focus is Some && prev_focus->0 != closed && open.contains(prev_focus->0)),
            place_of(order_before@, closed, 0) == Some(index as int),
            all == neighbours(order_before@, index as int),
            first_open(all, open) == first_open(all.skip(i - index - 1), open),
        decreases order_before@.len() - i,
    {
        let ghost rest = all.skip(i - index - 1);
        assert(rest[0] == order_before@[i as int]);
        assert(rest.drop_first() =~= all.skip(i - index));
        if root.contains(order_before[i]) {
            return Some(order_before[i]);
        }
        i += 1;
    }
    let ghost after = order_before@.len() - index - 1;
    let mut k: usize = index;
    while k > 0
        invariant
            k <= index < order_before@.len(),
            open == root.panes(),
            !(prev_focus is Some && prev_focus->0 != closed && open.contains(prev_focus->0)),
            place_of(order_before@, closed, 0) == Some(index as int),
            all == neighbours(order_before@, index as int),
            after == order_before@.len() - index - 1,
            first_open(all, open) == first_open(all.skip(after + index - k), open),
        decreases k,
    {
        k -= 1;
        let ghost rest = all.skip(after + index - k - 1);
        assert(rest[0] == order_before@[k as int]);
        assert(rest.drop_first() =~= all.skip(after + index - k));
        if root.contains(order_before[k]) {
            return Some(order_before[k]);
        }
    }
    assert(all.skip(after + index).len() == 0);
    None
}

proof fn lemma_panes_nonempty(node: PaneNode)
    ensures
        node.panes().len() > 0,
    decreases node,
{
    match node {
        PaneNode::Leaf(_) => {},
        PaneNode::Split { first, .. } => {
            lemma_panes_nonempty(*first);
        },
    }
}

proof fn lemma_panes_exist(tree: PaneTreeView)
    ensures
        tree.root is Some <==> tree.panes().len() > 0,
{
    if tree.root is Some {
        lemma_panes_nonempty(tree.root->0);
    }
}

proof fn lemma_place_found(order: Seq<PaneId>, id: PaneId, from: int)
    requires
        0 <= from <= order.len(),
    ensures
        match place_of(order, id, from) {
            Some(place) => {
                &&& from <= place < order.len()
                &&& order[place] == id
                &&& forall|i: int| from <= i < place ==> order[i] != id
            },
            None => forall|i: int| from <= i < order.len() ==> order[i] != id,
        },
    decreases order.len() - from,
{
    if from < order.len() && order[from] != id {
        lemma_place_found(order, id, from + 1);
    }
}

proof fn lemma_on_screen_fits(node: PaneNode, area: Rect)
    requires
        area.on_screen(),
    ensures
        node.fits(area),
    decreases node,
{
    match node {
        PaneNode::Leaf(_) => {},
        PaneNode::Split { axis, ratio, first, second } => {
            lemma_on_screen_fits(*first, area.first_half(axis, ratio));
            lemma_on_screen_fits(*second, area.second_half(axis, ratio));
        },
    }
}

proof fn lemma_with_ratio(node: PaneNode, id: PaneId, new: Ratio)
    ensures
        node.with_ratio(id, new) is Some <==> node.ratio_at(id) is Some,
        node.with_ratio(id, new) is Some ==> {
            &&& node.with_ratio(id, new)->0.panes() == node.panes()
            &&& node.steady() ==> node.with_ratio(id, new)->0.steady()
        },
        node.ratio_at(id) is Some ==> node.panes().contains(id),
    decreases node,
{
    match node {
        PaneNode::Leaf(_) => {},
        PaneNode::Split { ratio, first, second, .. } => {
            lemma_either(first.panes(), second.panes(), id);
            lemma_with_ratio(*first, id, new);
            lemma_with_ratio(*second, id, new);
            crate::ratio::law_clamping_bounds_a_ratio(new);
        },
    }
}

/// Closing a pane takes it, and only it, out of the layout order.
proof fn lemma_without(node: PaneNode, id: PaneId)
    requires
        node.panes().contains(id),
    ensures
        place_of(node.panes(), id, 0) is Some,
        match node.without(id) {
            Some(rest) => rest.panes() == node.panes().remove(place_of(node.panes(), id, 0)->0),
            None => node.panes().len() == 1,
        },
        node.steady() && node.without(id) is Some ==> node.without(id)->0.steady(),
    decreases node,
{
    lemma_place_found(node.panes(), id, 0);
    match node {
        PaneNode::Leaf(_) => {},
        PaneNode::Split { first, second, .. } => {
            let a = first.panes();
            let b = second.panes();
            lemma_either(a, b, id);
            let place = place_of(node.panes(), id, 0)->0;
            lemma_panes_nonempty(*first);
            lemma_panes_nonempty(*second);
            if a.contains(id) {
                lemma_without(*first, id);
                lemma_place_found(a, id, 0);
                let p = place_of(a, id, 0)->0;
                assert((a + b)[p] == id);
                assert(forall|i: int| 0 <= i < p ==> (a + b)[i] == a[i]);
                assert(place == p);
                assert((a + b).remove(p) =~= a.remove(p) + b);
                if first.without(id) is None {
                    assert(a.remove(p) + b =~= b);
                }
            } else {
                lemma_without(*second, id);
                lemma_place_found(b, id, 0);
                let p = place_of(b, id, 0)->0;
                assert((a + b)[a.len() + p] == id);
                assert forall|i: int| 0 <= i < a.len() + p implies (a + b)[i] != id by {
                    if i < a.len() {
                        assert(a.contains(a[i]));
                    } else {
                        assert((a + b)[i] == b[i - a.len()]);
                    }
                }
                assert(place == a.len() + p);
                assert((a + b).remove(a.len() + p) =~= a + b.remove(p));
                if second.without(id) is None {
                    assert(a + b.remove(p) =~= a);
                }
            }
        },
    }
}

proof fn lemma_with_beside(node: PaneNode, near: PaneId, id: PaneId, axis: Axis)
    requires
        node.panes().contains(near),
    ensures
        place_of(node.panes(), near, 0) is Some,
        node.with_beside(near, id, axis).panes() == node.panes().insert(
            place_of(node.panes(), near, 0)->0 + 1,
            id,
        ),
        node.steady() ==> node.with_beside(near, id, axis).steady(),
    decreases node,
{
    lemma_place_found(node.panes(), near, 0);
    match node {
        PaneNode::Leaf(_) => {
            reveal_with_fuel(PaneNode::panes, 3);
            reveal_with_fuel(PaneNode::steady, 3);
            let place = place_of(node.panes(), near, 0)->0;
            assert(place == 0);
            assert(node.with_beside(near, id, axis).panes() =~= node.panes().insert(1, id));
        },
        PaneNode::Split { first, second, .. } => {
            let a = first.panes();
            let b = second.panes();
            lemma_either(a, b, near);
            let place = place_of(node.panes(), near, 0)->0;
            if a.contains(near) {
                lemma_with_beside(*first, near, id, axis);
                lemma_place_found(a, near, 0);
                let p = place_of(a, near, 0)->0;
                assert((a + b)[p] == near);
                assert(forall|i: int| 0 <= i < p ==> (a + b)[i] == a[i]);
                assert(place == p);
                assert((a + b).insert(p + 1, id) =~= a.insert(p + 1, id) + b);
            } else {
                lemma_with_beside(*second, near, id, axis);
                lemma_place_found(b, near, 0);
                let p = place_of(b, near, 0)->0;
                assert((a + b)[a.len() + p] == near);
                assert forall|i: int| 0 <= i < a.len() + p implies (a + b)[i] != near by {
                    if i < a.len() {
                        assert(a.contains(a[i]));
                    } else {
                        assert((a + b)[i] == b[i - a.len()]);
                    }
                }
                assert(place == a.len() + p);
                assert((a + b).insert(a.len() + p + 1, id) =~= a + b.insert(p + 1, id));
            }
        },
    }
}

proof fn lemma_first_open(candidates: Seq<PaneId>, open: Seq<PaneId>)
    ensures
        first_open(candidates, open) is Some ==> open.contains(first_open(candidates, open)->0),
        (exists|i: int| 0 <= i < candidates.len() && open.contains(#[trigger] candidates[i]))
            ==> first_open(candidates, open) is Some,
    decreases candidates.len(),
{
    if candidates.len() > 0 && !open.contains(candidates[0]) {
        lemma_first_open(candidates.drop_first(), open);
        if exists|i: int| 0 <= i < candidates.len() && open.contains(#[trigger] candidates[i]) {
            let i = choose|i: int|
                0 <= i < candidates.len() && open.contains(#[trigger] candidates[i]);
            assert(candidates.drop_first()[i - 1] == candidates[i]);
        }
    }
}

// ---------------------------------------------------------------------------------------------
// Laws

/// Putting a pane in, splitting one and moving the keyboard keep a tree sound: the keyboard is
/// always with a pane that is open.
pub proof fn law_operations_keep_a_tree_sound(
    tree: PaneTreeView,
    near: PaneId,
    id: PaneId,
    axis: Axis,
)
    requires
        tree.wf(),
    ensures
        tree.reserved(id).wf(),
        tree.inserted(id, axis).wf(),
        tree.panes().contains(near) ==> tree.focused(near).wf(),
        tree.panes().contains(near) ==> tree.divided(near, id, axis).wf(),
{
    reveal_with_fuel(PaneNode::panes, 2);
    reveal_with_fuel(PaneNode::steady, 2);
    lemma_panes_exist(tree);
    let put = tree.inserted(id, axis);
    assert(put.panes() =~= tree.panes().push(id));
    assert(put.panes()[tree.panes().len() as int] == id);
    assert forall|other: PaneId| tree.panes().contains(other) implies put.panes().contains(
        other,
    ) by {
        let i = choose|i: int| 0 <= i < tree.panes().len() && tree.panes()[i] == other;
        assert(put.panes()[i] == other);
    }
    assert forall|i: int| 0 <= i < put.panes().len() implies (#[trigger] put.panes()[i]).0
        <= put.next by {
        if i < tree.panes().len() {
            assert(put.panes()[i] == tree.panes()[i]);
        }
    }
    if tree.panes().contains(near) {
        let root = tree.root->0;
        lemma_with_beside(root, near, id, axis);
        lemma_place_found(tree.panes(), near, 0);
        let p = place_of(tree.panes(), near, 0)->0;
        let cut = tree.divided(near, id, axis);
        assert(cut.panes() =~= tree.panes().insert(p + 1, id));
        assert(cut.panes()[p + 1] == id);
        assert forall|other: PaneId| tree.panes().contains(other) implies cut.panes().contains(
            other,
        ) by {
            let i = choose|i: int| 0 <= i < tree.panes().len() && tree.panes()[i] == other;
            assert(cut.panes()[if i <= p {
                i
            } else {
                i + 1
            }] == other);
        }
        assert forall|i: int| 0 <= i < cut.panes().len() implies (#[trigger] cut.panes()[i]).0
            <= cut.next by {
            if i <= p {
                assert(cut.panes()[i] == tree.panes()[i]);
            } else if i > p + 1 {
                assert(cut.panes()[i] == tree.panes()[i - 1]);
            }
        }
    }
}

/// Closing a pane keeps a tree sound: whatever was closed, the keyboard ends up with a pane that is
/// open as long as there is one.
pub proof fn law_closing_keeps_a_tree_sound(tree: PaneTreeView, id: PaneId)
    requires
        tree.wf(),
        tree.panes().contains(id),
    ensures
        tree.closed(id).wf(),
{
    lemma_panes_exist(tree);
    let root = tree.root->0;
    let order = tree.panes();
    lemma_without(root, id);
    lemma_place_found(order, id, 0);
    let p = place_of(order, id, 0)->0;
    if root.without(id) is Some {
        let rest = root.without(id)->0;
        let open = rest.panes();
        assert(open =~= order.remove(p));
        lemma_panes_nonempty(rest);
        let near = neighbours(order, p);
        lemma_first_open(near, open);
        // Whatever is left is a neighbour of what closed.
        if p + 1 < order.len() {
            assert(near[0] == order[p + 1]);
            assert(open[p] == order[p + 1]);
        } else {
            assert(near[0] == order[p - 1]);
            assert(open[p - 1] == order[p - 1]);
        }
        assert(open.contains(near[0]));
        assert forall|i: int| 0 <= i < open.len() implies (#[trigger] open[i]).0 <= tree.next by {
            assert(open[i] == order[if i < p {
                i
            } else {
                i + 1
            }]);
        }
        if tree.previous is Some && tree.previous != Some(id) {
            let i = choose|i: int| 0 <= i < order.len() && order[i] == tree.previous->0;
            assert(open[if i < p {
                i
            } else {
                i - 1
            }] == tree.previous->0);
        }
    }
}

/// Closing a pane takes that pane out of the layout and leaves every other where it stood in the
/// order.
pub proof fn law_closing_removes_one_pane(tree: PaneTreeView, id: PaneId)
    requires
        tree.wf(),
        tree.panes().contains(id),
    ensures
        place_of(tree.panes(), id, 0) is Some,
        tree.closed(id).panes() == tree.panes().remove(place_of(tree.panes(), id, 0)->0),
{
    lemma_without(tree.root->0, id);
    lemma_place_found(tree.panes(), id, 0);
    assert(tree.closed(id).panes() =~= tree.panes().remove(place_of(tree.panes(), id, 0)->0));
}

/// A split puts the new pane right after the one it was split from, and moves nothing else.
pub proof fn law_splitting_adds_one_pane(tree: PaneTreeView, near: PaneId, id: PaneId, axis: Axis)
    requires
        tree.wf(),
        tree.panes().contains(near),
    ensures
        place_of(tree.panes(), near, 0) is Some,
        tree.divided(near, id, axis).panes() == tree.panes().insert(
            place_of(tree.panes(), near, 0)->0 + 1,
            id,
        ),
        tree.divided(near, id, axis).focus == Some(id),
{
    lemma_with_beside(tree.root->0, near, id, axis);
}

/// A closed pane's area goes to the sibling it shared a split with: a split of which one side was
/// the pane becomes the other side, and so covers all of the split's area.
pub proof fn law_the_sibling_takes_the_area(
    id: PaneId,
    sibling: PaneNode,
    axis: Axis,
    ratio: Ratio,
    area: Rect,
)
    requires
        !sibling.panes().contains(id),
    ensures
        (PaneNode::Split {
            axis,
            ratio,
            first: Box::new(PaneNode::Leaf(id)),
            second: Box::new(sibling),
        }).without(id) == Some(sibling),
        (PaneNode::Split {
            axis,
            ratio,
            first: Box::new(sibling),
            second: Box::new(PaneNode::Leaf(id)),
        }).without(id) == Some(sibling),
        (PaneNode::Split {
            axis,
            ratio,
            first: Box::new(PaneNode::Leaf(id)),
            second: Box::new(sibling),
        }).without(id)->0.places(area) == sibling.places(area),
{
    reveal_with_fuel(PaneNode::without, 2);
    assert(PaneNode::Leaf(id).panes()[0] == id);
}

/// An id from the counter is new: no open pane has it, nor will the counter give it again.
pub proof fn law_ids_are_never_reused(tree: PaneTreeView)
    requires
        tree.wf(),
        tree.next < u64::MAX,
    ensures
        !tree.panes().contains(PaneId((tree.next + 1) as u64)),
        (PaneTreeView { next: (tree.next + 1) as u64, ..tree }).next > tree.next,
        forall|id: PaneId, axis: Axis| (#[trigger] tree.inserted(id, axis)).next >= tree.next,
        forall|id: PaneId| (#[trigger] tree.closed(id)).next == tree.next,
        forall|near: PaneId, id: PaneId, axis: Axis|
            (#[trigger] tree.divided(near, id, axis)).next >= tree.next,
{
}

/// A pane that arrives with its own id keeps the counter at or past it.
pub proof fn law_the_counter_stays_ahead(tree: PaneTreeView, near: PaneId, id: PaneId, axis: Axis)
    ensures
        tree.reserved(id).next >= id.0,
        tree.inserted(id, axis).next >= id.0,
        tree.divided(near, id, axis).next >= id.0,
{
}

/// Closing the pane a split opened puts the keyboard back where it was, if that pane is still a
/// different one.
pub proof fn law_closing_returns_the_keyboard(
    tree: PaneTreeView,
    near: PaneId,
    id: PaneId,
    axis: Axis,
)
    requires
        tree.wf(),
        tree.panes().contains(near),
        !tree.panes().contains(id),
    ensures
        tree.divided(near, id, axis).closed(id).focus == tree.focus,
{
    law_operations_keep_a_tree_sound(tree, near, id, axis);
    law_splitting_adds_one_pane(tree, near, id, axis);
    let cut = tree.divided(near, id, axis);
    lemma_place_found(tree.panes(), near, 0);
    let p = place_of(tree.panes(), near, 0)->0;
    assert(cut.panes()[p + 1] == id);
    law_closing_removes_one_pane(cut, id);
    lemma_place_found(cut.panes(), id, 0);
    let q = place_of(cut.panes(), id, 0)->0;
    assert forall|i: int| 0 <= i < cut.panes().len() && i != p + 1 implies cut.panes()[i]
        != id by {
        if i <= p {
            assert(tree.panes().contains(tree.panes()[i]));
        } else {
            assert(tree.panes().contains(tree.panes()[i - 1]));
        }
    }
    assert(q == p + 1);
    assert(cut.panes().remove(q) =~= tree.panes());
    lemma_panes_nonempty(cut.root->0);
    lemma_without(cut.root->0, id);
}

/// The ratio a pane is given is the ratio it has: clamped, and on the split that holds it.
pub proof fn law_a_set_ratio_is_read_back(node: PaneNode, id: PaneId, new: Ratio)
    requires
        node.ratio_at(id) is Some,
        node.panes().no_duplicates(),
    ensures
        node.with_ratio(id, new) is Some,
        node.with_ratio(id, new)->0.ratio_at(id) == Some(new.clamp_view()),
        node.with_ratio(id, new)->0.panes() == node.panes(),
    decreases node,
{
    lemma_with_ratio(node, id, new);
    match node {
        PaneNode::Leaf(_) => {},
        PaneNode::Split { first, second, .. } => {
            let a = first.panes();
            let b = second.panes();
            lemma_either(a, b, id);
            assert(a.no_duplicates()) by {
                assert forall|i: int, j: int| 0 <= i < a.len() && 0 <= j < a.len() && i
                    != j implies a[i] != a[j] by {
                    assert((a + b)[i] == a[i] && (a + b)[j] == a[j]);
                }
            }
            assert(b.no_duplicates()) by {
                assert forall|i: int, j: int| 0 <= i < b.len() && 0 <= j < b.len() && i
                    != j implies b[i] != b[j] by {
                    assert((a + b)[a.len() + i] == b[i] && (a + b)[a.len() + j] == b[j]);
                }
            }
            // The pane is on one side only.
            assert(!(a.contains(id) && b.contains(id))) by {
                if a.contains(id) && b.contains(id) {
                    let i = choose|i: int| 0 <= i < a.len() && a[i] == id;
                    let j = choose|j: int| 0 <= j < b.len() && b[j] == id;
                    assert((a + b)[i] == (a + b)[a.len() + j]);
                }
            }
            lemma_with_ratio(*first, id, new);
            lemma_with_ratio(*second, id, new);
            if first.ratio_at(id) is Some {
                law_a_set_ratio_is_read_back(*first, id, new);
            } else if second.ratio_at(id) is Some {
                law_a_set_ratio_is_read_back(*second, id, new);
            }
        },
    }
}

/// The panes are placed in layout order, each once.
pub proof fn law_every_pane_is_placed(node: PaneNode, area: Rect)
    ensures
        node.places(area).len() == node.panes().len(),
        forall|i: int|
            0 <= i < node.panes().len() ==> (#[trigger] node.places(area)[i]).0 == node.panes()[i],
    decreases node,
{
    match node {
        PaneNode::Leaf(_) => {},
        PaneNode::Split { axis, ratio, first, second } => {
            law_every_pane_is_placed(*first, area.first_half(axis, ratio));
            law_every_pane_is_placed(*second, area.second_half(axis, ratio));
        },
    }
}

/// How many of a list of placed panes hold a cell.
pub open spec fn holders(places: Seq<(PaneId, Rect)>, x: int, y: int) -> nat
    decreases places.len(),
{
    if places.len() == 0 {
        0
    } else {
        holders(places.drop_last(), x, y) + if places.last().1.holds(x, y) {
            1nat
        } else {
            0nat
        }
    }
}

proof fn lemma_holders_add(a: Seq<(PaneId, Rect)>, b: Seq<(PaneId, Rect)>, x: int, y: int)
    ensures
        holders(a + b, x, y) == holders(a, x, y) + holders(b, x, y),
    decreases b.len(),
{
    if b.len() == 0 {
        assert(a + b =~= a);
    } else {
        assert((a + b).drop_last() =~= a + b.drop_last());
        lemma_holders_add(a, b.drop_last(), x, y);
    }
}

/// The rectangles tile the area exactly: every cell of the area belongs to exactly one pane, and no
/// pane has a cell outside it.
pub proof fn law_rects_tile_the_area(node: PaneNode, area: Rect, x: int, y: int)
    requires
        node.fits(area),
    ensures
        holders(node.places(area), x, y) == if area.holds(x, y) {
            1nat
        } else {
            0nat
        },
    decreases node,
{
    match node {
        PaneNode::Leaf(id) => {
            assert(node.places(area).drop_last() =~= Seq::<(PaneId, Rect)>::empty());
            assert(holders(node.places(area).drop_last(), x, y) == 0);
        },
        PaneNode::Split { axis, ratio, first, second } => {
            let a = area.first_half(axis, ratio);
            let b = area.second_half(axis, ratio);
            law_rects_tile_the_area(*first, a, x, y);
            law_rects_tile_the_area(*second, b, x, y);
            lemma_holders_add(first.places(a), second.places(b), x, y);
        },
    }
}

/// Two kinds never share a name, so a name in a file means one kind.
pub proof fn law_kind_names_tell_kinds_apart()
    ensures
        forall|a: PaneKind, b: PaneKind|
            #[trigger] kind_name(a) == #[trigger] kind_name(b) ==> a == b,
{
    reveal_strlit("chat");
    reveal_strlit("editor");
    reveal_strlit("terminal");
    reveal_strlit("files");
    assert("chat"@.len() == 4 && "editor"@.len() == 6 && "terminal"@.len() == 8 && "files"@.len()
        == 5);
}

/// A split divides an area along its axis and leaves the other side of it alone: side by side, both
/// halves are as high as the area and the second begins where the first ends; one above the other,
/// both are as wide.
pub proof fn law_a_split_divides_along_its_axis(area: Rect, ratio: Ratio)
    requires
        area.on_screen(),
    ensures
        ({
            let first = area.first_half(Axis::Horizontal, ratio);
            let second = area.second_half(Axis::Horizontal, ratio);
            &&& first.x == area.x && first.y == area.y && first.height == area.height
            &&& second.y == area.y && second.height == area.height
            &&& first.width == ratio.part(area.width)
            &&& second.x == area.x + first.width
            &&& first.width + second.width == area.width
        }),
        ({
            let first = area.first_half(Axis::Vertical, ratio);
            let second = area.second_half(Axis::Vertical, ratio);
            &&& first.x == area.x && first.y == area.y && first.width == area.width
            &&& second.x == area.x && second.width == area.width
            &&& first.height == ratio.part(area.height)
            &&& second.y == area.y + first.height
            &&& first.height + second.height == area.height
        }),
{
}

/// A pane that is put in comes last and leaves the keyboard where it is, unless it is the first. It
/// gets the second half of the area, and what was there shares the first.
pub proof fn law_a_new_pane_comes_last(
    tree: PaneTreeView,
    id: PaneId,
    axis: Axis,
    area: Rect,
)
    requires
        tree.wf(),
    ensures
        tree.inserted(id, axis).panes() == tree.panes().push(id),
        tree.root is None ==> {
            &&& tree.inserted(id, axis).focus == Some(id)
            &&& tree.inserted(id, axis).places(area) == seq![(id, area)]
        },
        tree.root is Some ==> {
            let half = Ratio { bits: 0x3f00_0000 };
            &&& tree.inserted(id, axis).focus == tree.focus
            &&& tree.inserted(id, axis).places(area) == tree.places(
                area.first_half(axis, half),
            ).push((id, area.second_half(axis, half)))
        },
        tree.inserted(id, axis).previous == tree.previous,
{
    match tree.root {
        None => {
            assert(tree.panes().push(id) =~= seq![id]);
        },
        Some(root) => {
            let half = Ratio { bits: 0x3f00_0000 };
            let node = tree.inserted(id, axis).root->0;
            assert(PaneNode::Leaf(id).panes() =~= seq![id]);
            assert(node.panes() =~= root.panes().push(id));
            let second = area.second_half(axis, half);
            assert(PaneNode::Leaf(id).places(second) =~= seq![(id, second)]);
            assert(node.places(area) =~= root.places(area.first_half(axis, half)).push(
                (id, second),
            ));
        },
    }
}

/// Whether the area of one pane, at a place, was divided between it and another, and nothing else was
/// moved.
pub open spec fn divided_at(
    before: Seq<(PaneId, Rect)>,
    after: Seq<(PaneId, Rect)>,
    near: PaneId,
    id: PaneId,
    axis: Axis,
    k: int,
) -> bool {
    let half = Ratio { bits: 0x3f00_0000 };
    &&& 0 <= k < before.len()
    &&& before[k].0 == near
    &&& after == before.take(k) + seq![
        (near, before[k].1.first_half(axis, half)),
        (id, before[k].1.second_half(axis, half)),
    ] + before.skip(k + 1)
}

proof fn lemma_divided_beside(
    left: Seq<(PaneId, Rect)>,
    now: Seq<(PaneId, Rect)>,
    right: Seq<(PaneId, Rect)>,
    near: PaneId,
    id: PaneId,
    axis: Axis,
    k: int,
)
    requires
        divided_at(left, now, near, id, axis, k),
    ensures
        divided_at(left + right, now + right, near, id, axis, k),
{
    let whole = left + right;
    assert(whole[k] == left[k]);
    assert(whole.take(k) =~= left.take(k));
    assert(whole.skip(k + 1) =~= left.skip(k + 1) + right);
    let pair = seq![now[k], now[k + 1]];
    assert(now.len() == left.len() + 1);
    assert(now + right =~= left.take(k) + pair + (left.skip(k + 1) + right));
}

proof fn lemma_divided_behind(
    left: Seq<(PaneId, Rect)>,
    right: Seq<(PaneId, Rect)>,
    now: Seq<(PaneId, Rect)>,
    near: PaneId,
    id: PaneId,
    axis: Axis,
    k: int,
)
    requires
        divided_at(right, now, near, id, axis, k),
    ensures
        divided_at(left + right, left + now, near, id, axis, left.len() + k),
{
    let whole = left + right;
    let n = left.len() + k;
    assert(whole[n] == right[k]);
    assert(whole.take(n) =~= left + right.take(k));
    assert(whole.skip(n + 1) =~= right.skip(k + 1));
    let pair = seq![now[k], now[k + 1]];
    assert(now.len() == right.len() + 1);
    assert(left + now =~= left + right.take(k) + pair + right.skip(k + 1));
}

/// Splitting a pane divides that pane's own area in two and moves no other: the pane keeps the first
/// half, the new one gets the second, and every other pane stays where it is.
pub proof fn law_splitting_divides_only_its_own_pane(
    node: PaneNode,
    near: PaneId,
    id: PaneId,
    axis: Axis,
    area: Rect,
)
    requires
        node.panes().contains(near),
    ensures
        exists|k: int| #[trigger]
            divided_at(
                node.places(area),
                node.with_beside(near, id, axis).places(area),
                near,
                id,
                axis,
                k,
            ),
    decreases node,
{
    let half = Ratio { bits: 0x3f00_0000 };
    let before = node.places(area);
    let after = node.with_beside(near, id, axis).places(area);
    match node {
        PaneNode::Leaf(leaf) => {
            assert(node.panes()[0] == leaf);
            assert(before[0] == (leaf, area));
            let new = PaneNode::Leaf(id);
            let second = area.second_half(axis, half);
            assert(new.places(second) =~= seq![(id, second)]);
            assert(node.places(area.first_half(axis, half)) =~= seq![
                (near, area.first_half(axis, half)),
            ]);
            assert(after =~= before.take(0) + seq![
                (near, area.first_half(axis, half)),
                (id, second),
            ] + before.skip(1));
            assert(divided_at(before, after, near, id, axis, 0));
        },
        PaneNode::Split { axis: a, ratio, first, second } => {
            lemma_either(first.panes(), second.panes(), near);
            let x = area.first_half(a, ratio);
            let y = area.second_half(a, ratio);
            let left = first.places(x);
            let right = second.places(y);
            if first.panes().contains(near) {
                law_splitting_divides_only_its_own_pane(*first, near, id, axis, x);
                let now = first.with_beside(near, id, axis).places(x);
                let k = choose|k: int| #[trigger] divided_at(left, now, near, id, axis, k);
                lemma_divided_beside(left, now, right, near, id, axis, k);
                assert(after == now + right);
                assert(divided_at(before, after, near, id, axis, k));
            } else {
                law_splitting_divides_only_its_own_pane(*second, near, id, axis, y);
                let now = second.with_beside(near, id, axis).places(y);
                let k = choose|k: int| #[trigger] divided_at(right, now, near, id, axis, k);
                lemma_divided_behind(left, right, now, near, id, axis, k);
                assert(after == left + now);
                assert(divided_at(before, after, near, id, axis, left.len() + k));
            }
        },
    }
}

/// Closing a pane changes only its own side of a split: the other side stays in its half.
pub proof fn law_closing_leaves_the_other_side_alone(
    axis: Axis,
    ratio: Ratio,
    first: PaneNode,
    second: PaneNode,
    id: PaneId,
    area: Rect,
)
    requires
        first.panes().contains(id) != second.panes().contains(id),
    ensures
        ({
            let node = PaneNode::Split {
                axis,
                ratio,
                first: Box::new(first),
                second: Box::new(second),
            };
            &&& first.panes().contains(id) ==> match first.without(id) {
                Some(rest) => node.without(id) is Some && node.without(id)->0.places(area)
                    == rest.places(area.first_half(axis, ratio)) + second.places(
                    area.second_half(axis, ratio),
                ),
                None => node.without(id) == Some(second),
            }
            &&& second.panes().contains(id) ==> match second.without(id) {
                Some(rest) => node.without(id) is Some && node.without(id)->0.places(area)
                    == first.places(area.first_half(axis, ratio)) + rest.places(
                    area.second_half(axis, ratio),
                ),
                None => node.without(id) == Some(first),
            }
        }),
{
}

/// A new ratio goes to the split nearest to its pane: where the pane is one of the two sides it is
/// that split's, and where it is further down every split above keeps its own.
pub proof fn law_only_the_nearest_split_moves(
    axis: Axis,
    ratio: Ratio,
    first: PaneNode,
    second: PaneNode,
    id: PaneId,
    new: Ratio,
)
    requires
        !second.panes().contains(id),
    ensures
        ({
            let node = PaneNode::Split {
                axis,
                ratio,
                first: Box::new(first),
                second: Box::new(second),
            };
            let turned = PaneNode::Split {
                axis,
                ratio,
                first: Box::new(second),
                second: Box::new(first),
            };
            &&& first == PaneNode::Leaf(id) ==> {
                &&& node.ratio_at(id) == Some(ratio)
                &&& turned.ratio_at(id) == Some(ratio)
                &&& node.with_ratio(id, new) == Some(
                    PaneNode::Split {
                        axis,
                        ratio: new.clamp_view(),
                        first: Box::new(first),
                        second: Box::new(second),
                    },
                )
                &&& turned.with_ratio(id, new) == Some(
                    PaneNode::Split {
                        axis,
                        ratio: new.clamp_view(),
                        first: Box::new(second),
                        second: Box::new(first),
                    },
                )
            }
            &&& first.with_ratio(id, new) matches Some(inner) ==> {
                &&& node.ratio_at(id) == first.ratio_at(id)
                &&& turned.ratio_at(id) == first.ratio_at(id)
                &&& node.with_ratio(id, new) == Some(
                    PaneNode::Split {
                        axis,
                        ratio,
                        first: Box::new(inner),
                        second: Box::new(second),
                    },
                )
                &&& turned.with_ratio(id, new) == Some(
                    PaneNode::Split {
                        axis,
                        ratio,
                        first: Box::new(second),
                        second: Box::new(inner),
                    },
                )
            }
        }),
{
    let node = PaneNode::Split { axis, ratio, first: Box::new(first), second: Box::new(second) };
    let turned = PaneNode::Split { axis, ratio, first: Box::new(second), second: Box::new(first) };
    lemma_either(first.panes(), second.panes(), id);
    lemma_either(second.panes(), first.panes(), id);
    lemma_with_ratio(first, id, new);
    lemma_with_ratio(second, id, new);
    assert(node.panes() == first.panes() + second.panes());
    assert(turned.panes() == second.panes() + first.panes());
    if first == PaneNode::Leaf(id) {
        assert(first.panes()[0] == id);
        assert(first.panes().contains(id));
        assert(first.with_ratio(id, new) is None);
        assert(first.ratio_at(id) is None);
    }
}

/// The keyboard goes where it is sent, and where it came from is remembered; sending it where it is
/// changes nothing.
pub proof fn law_the_keyboard_goes_where_it_is_sent(tree: PaneTreeView, id: PaneId)
    ensures
        tree.focused(id).focus == Some(id),
        tree.focus == Some(id) ==> tree.focused(id) == tree,
        tree.focus != Some(id) ==> tree.focused(id).previous == tree.focus,
        tree.focused(id).root == tree.root,
        tree.focused(id).next == tree.next,
{
}

/// Once a pane has closed the keyboard goes back to where it came from, if that is still open, else to
/// the pane that followed in the layout, else to the one before. Nothing is left of a pane that was
/// alone.
pub proof fn law_the_keyboard_goes_to_a_neighbour(tree: PaneTreeView, id: PaneId, k: int)
    requires
        tree.wf(),
        tree.panes().no_duplicates(),
        0 <= k < tree.panes().len(),
        tree.panes()[k] == id,
    ensures
        ({
            let order = tree.panes();
            let now = tree.closed(id);
            &&& order.len() == 1 ==> now.root is None && now.focus is None && now.previous is None
            &&& order.len() > 1 ==> {
                &&& tree.previous matches Some(previous) ==> (previous != id ==> now.focus == Some(
                    previous,
                ))
                &&& tree.previous is None || tree.previous == Some(id) ==> now.focus == Some(
                    if k + 1 < order.len() {
                        order[k + 1]
                    } else {
                        order[k - 1]
                    },
                )
                &&& tree.previous == Some(id) ==> now.previous is None
                &&& tree.previous != Some(id) ==> now.previous == tree.previous
            }
        }),
{
    let order = tree.panes();
    lemma_panes_exist(tree);
    let root = tree.root->0;
    assert(order.contains(id));
    lemma_without(root, id);
    lemma_place_found(order, id, 0);
    let at = place_of(order, id, 0)->0;
    assert(at == k);
    match root.without(id) {
        None => {},
        Some(rest) => {
            let open = rest.panes();
            assert(open == order.remove(k));
            lemma_panes_nonempty(rest);
            assert forall|i: int| 0 <= i < order.len() && i != k implies open.contains(
                #[trigger] order[i],
            ) by {
                if i < k {
                    assert(open[i] == order[i]);
                } else {
                    assert(open[i - 1] == order[i]);
                }
            }
            if let Some(previous) = tree.previous {
                if previous != id {
                    let p = choose|p: int| 0 <= p < order.len() && order[p] == previous;
                    assert(open.contains(order[p]));
                }
            }
            let candidates = neighbours(order, k);
            if k + 1 < order.len() {
                assert(candidates[0] == order[k + 1]);
                assert(open.contains(order[k + 1]));
            } else {
                assert(candidates[0] == order[k - 1]);
                assert(open.contains(order[k - 1]));
            }
        },
    }
}

/// The counter moves only to reach an id that is ahead of it.
pub proof fn law_the_counter_moves_only_when_it_must(tree: PaneTreeView, id: PaneId)
    ensures
        id.0 <= tree.next ==> tree.reserved(id) == tree,
        id.0 > tree.next ==> tree.reserved(id) == (PaneTreeView { next: id.0, ..tree }),
{
}

/// Each kind of pane goes by its own lowercase name.
pub proof fn law_each_kind_goes_by_its_name()
    ensures
        kind_name(PaneKind::Chat) == "chat"@,
        kind_name(PaneKind::Editor) == "editor"@,
        kind_name(PaneKind::Terminal) == "terminal"@,
        kind_name(PaneKind::FileTree) == "files"@,
{
}

} // verus!
