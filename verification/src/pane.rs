//! A tree of regions, each drawing its own content and then its children.

use vstd::prelude::*;

use crate::buffer::{Buffer, Grid};
use crate::shape::Rect;
use crate::Draw;

verus! {

/// A region of the screen: its own drawables (the background layer) and
/// child panes drawn on top, all positioned relative to it.
pub struct Pane {
    /// Where the pane sits, relative to the area it is drawn in.
    pub area: Rect,
    /// The pane's own drawables, drawn first, in order.
    pub content: Vec<Box<dyn Draw>>,
    /// Child panes, drawn after the content, in order.
    pub children: Vec<Pane>,
}

/// The absolute origin a pane occupying `own` (relative to `area`) hands to
/// its content and children.
pub open spec fn origin_of(own: Rect, area: Rect) -> Rect {
    Rect { x: (area.x + own.x) as u16, y: (area.y + own.y) as u16, w: own.w, h: own.h }
}

/// Drawing `items` one after another, each against `origin`, starting from `g`.
pub open spec fn draw_all(items: Seq<Box<dyn Draw>>, g: Grid, origin: Rect) -> Grid
    decreases items.len(),
{
    if items.len() == 0 {
        g
    } else {
        items.last().drawn(draw_all(items.drop_last(), g, origin), origin)
    }
}

/// Drawing a pane's content is drawing its items in their order: the first
/// `k + 1` items leave what item `k` draws over what the first `k` left, so
/// where two items overlap the later one's cells win; no items leave the
/// grid as it was; and all the items are the first `len` of them.
pub proof fn lemma_draw_all_in_order(items: Seq<Box<dyn Draw>>, g: Grid, origin: Rect)
    ensures
        draw_all(items.take(0), g, origin) == g,
        forall|k: int|
            0 <= k < items.len() ==> #[trigger] draw_all(items.take(k + 1), g, origin)
                == items[k].drawn(draw_all(items.take(k), g, origin), origin),
        draw_all(items, g, origin) == draw_all(items.take(items.len() as int), g, origin),
{
    assert forall|k: int| 0 <= k < items.len() implies #[trigger] draw_all(items.take(k + 1), g, origin)
        == items[k].drawn(draw_all(items.take(k), g, origin), origin) by {
        assert(items.take(k + 1).drop_last() == items.take(k));
        assert(items.take(k + 1).last() == items[k]);
    }
    assert(items.take(items.len() as int) == items);
}

/// Drawing a pane's children is drawing them in their order: one more child
/// is drawn last, on top of what the children before it left.
pub proof fn lemma_children_drawn_in_order(ps: Seq<Pane>, p: Pane, g: Grid, origin: Rect)
    ensures
        children_drawn(Seq::empty(), g, origin) == g,
        children_drawn(ps.push(p), g, origin) == pane_drawn(p, children_drawn(ps, g, origin), origin),
{
    let s = ps.push(p);
    assert(s.last() == p);
    assert(s.subrange(0, s.len() - 1) =~= ps);
}

/// Every item can be drawn against `origin`.
pub open spec fn all_fit(items: Seq<Box<dyn Draw>>, origin: Rect) -> bool {
    forall|i: int| 0 <= i < items.len() ==> #[trigger] items[i].fits(origin)
}

/// The grid a pane leaves behind when drawn within `area`, starting from `g`:
/// its own content first, then each child on top, in order.
pub open spec fn pane_drawn(p: Pane, g: Grid, area: Rect) -> Grid
    decreases p, 1int,
{
    let origin = origin_of(p.area, area);
    children_drawn(p.children@, draw_all(p.content@, g, origin), origin)
}

/// Drawing the panes `ps` one after another against `origin`, starting from `g`.
pub open spec fn children_drawn(ps: Seq<Pane>, g: Grid, origin: Rect) -> Grid
    decreases ps, 0int,
{
    if ps.len() == 0 {
        g
    } else {
        pane_drawn(ps.last(), children_drawn(ps.subrange(0, ps.len() - 1), g, origin), origin)
    }
}

/// Whether a pane and everything in it can be drawn within `area`.
pub open spec fn pane_fits(p: Pane, area: Rect) -> bool
    decreases p, 1int,
{
    let origin = origin_of(p.area, area);
    &&& area.x + p.area.x <= u16::MAX
    &&& area.y + p.area.y <= u16::MAX
    &&& all_fit(p.content@, origin)
    &&& children_fit(p.children@, origin)
}

/// Whether each of the panes `ps` can be drawn against `origin`.
pub open spec fn children_fit(ps: Seq<Pane>, origin: Rect) -> bool
    decreases ps, 0int,
{
    if ps.len() == 0 {
        true
    } else {
        children_fit(ps.subrange(0, ps.len() - 1), origin) && pane_fits(ps.last(), origin)
    }
}

impl Pane {
    /// An empty pane covering `area`, with no content and no children.
    pub fn new(area: Rect) -> (p: Self)
        ensures
            p.area == area,
            p.content@.len() == 0,
            p.children@.len() == 0,
    {
        Pane { area, content: Vec::new(), children: Vec::new() }
    }

    /// Adds a drawable to this pane's own content layer.
    pub fn push(&mut self, item: Box<dyn Draw>)
        ensures
            final(self).area == old(self).area,
            final(self).content@ === old(self).content@.push(item),
            final(self).content@.len() == old(self).content@.len() + 1,
            final(self).children@ == old(self).children@,
    {
        self.content.push(item);
        proof {
            vstd::seq::axiom_seq_push_len(old(self).content@, item);
        }
    }

    /// Adds a child pane, drawn on top of this pane's content.
    pub fn add_child(&mut self, child: Pane)
        ensures
            final(self).area == old(self).area,
            final(self).content@ === old(self).content@,
            final(self).children@ == old(self).children@.push(child),
            final(self).children@.len() == old(self).children@.len() + 1,
    {
        self.children.push(child);
    }

    fn draw_tree(&self, buf: &mut Buffer, area: Rect)
        requires
            pane_fits(*self, area),
        ensures
            final(buf)@.rows == old(buf)@.rows,
            final(buf)@.cols == old(buf)@.cols,
            final(buf)@ == pane_drawn(*self, old(buf)@, area),
        decreases self,
    {
        // This pane occupies `self.area`, expressed relative to the `area`
        // it was handed. Translate it into an absolute origin that content and
        // children are positioned against.
        let origin = Rect {
            x: area.x + self.area.x,
            y: area.y + self.area.y,
            w: self.area.w,
            h: self.area.h,
        };
        let ghost before = buf@;

        // Painter's algorithm: this pane's own content first (the background),
        // then each child on top, in order. Later items overwrite earlier ones.
        // Everything is drawn relative to this pane's origin.
        let mut i: usize = 0;
        while i < self.content.len()
            invariant
                i <= self.content@.len(),
                origin == origin_of(self.area, area),
                all_fit(self.content@, origin),
                buf@.rows == before.rows,
                buf@.cols == before.cols,
                buf@ == draw_all(self.content@.take(i as int), before, origin),
            decreases self.content@.len() - i,
        {
            assert(self.content@.take(i + 1).drop_last() == self.content@.take(i as int));
            self.content[i].draw(buf, origin);
            i = i + 1;
        }
        assert(self.content@.take(self.content@.len() as int) == self.content@);
        let ghost middle = buf@;
        let mut k: usize = 0;
        while k < self.children.len()
            invariant
                k <= self.children@.len(),
                origin == origin_of(self.area, area),
                children_fit(self.children@, origin),
                buf@.rows == before.rows,
                buf@.cols == before.cols,
                buf@ == children_drawn(self.children@.subrange(0, k as int), middle, origin),
            decreases self.children@.len() - k,
        {
            assert(self.children@.subrange(0, k + 1).subrange(0, k as int) == self.children@.subrange(
                0,
                k as int,
            ));
            proof {
                lemma_children_fit(self.children@, origin, k as int);
            }
            assert(decreases_to!(self => self.children@[k as int]));
            self.children[k].draw_tree(buf, origin);
            k = k + 1;
        }
        assert(self.children@.subrange(0, self.children@.len() as int) == self.children@);
    }
}

/// Every child of a fitting list of children fits.
proof fn lemma_children_fit(ps: Seq<Pane>, origin: Rect, k: int)
    requires
        children_fit(ps, origin),
        0 <= k < ps.len(),
    ensures
        pane_fits(ps[k], origin),
    decreases ps.len(),
{
    if k < ps.len() - 1 {
        let front = ps.subrange(0, ps.len() - 1);
        lemma_children_fit(front, origin, k);
        assert(front[k] == ps[k]);
    }
}

impl Draw for Pane {
    open spec fn fits(&self, area: Rect) -> bool {
        pane_fits(*self, area)
    }

    open spec fn drawn(&self, before: Grid, area: Rect) -> Grid {
        pane_drawn(*self, before, area)
    }

    fn draw(&self, buf: &mut Buffer, area: Rect) {
        self.draw_tree(buf, area);
    }
}

} // verus!
