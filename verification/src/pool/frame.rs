//! The main thread's side of a frame: when the reclamation clock may tick, and how the rows the
//! workers drew update the picture.
use vstd::prelude::*;
use crate::complex::window::{Window, WindowView};
use crate::tree::moment::{MomentInner, RenderMoment, ReclaimMoment};
use crate::tree::rgb::{Rgb, pack_rgb};
use crate::complex::domain::default_domain;
use crate::tree::quadtree::Tree;
use crate::tree::quadtree::laws::lemma_stale_point_on_line;

verus! {

/// Whether the reclamation clock may tick: every worker has acknowledged the moment `now`.
/// A worker is never ahead of the main thread, nor more than one moment behind.
pub fn reclaim_tick_ready(now: ReclaimMoment, worker_nows: &Vec<ReclaimMoment>) -> (r: bool)
    requires
        forall|x: int| 0 <= x < worker_nows@.len() ==> #[trigger] worker_nows@[x].0 <= now.0 <= worker_nows@[x].0 + 1,
    ensures
        r == forall|x: int| 0 <= x < worker_nows@.len() ==> #[trigger] worker_nows@[x].0 == now.0,
{
    let mut i: usize = 0;
    while i < worker_nows.len()
        invariant
            i <= worker_nows@.len(),
            forall|x: int| 0 <= x < i ==> #[trigger] worker_nows@[x].0 == now.0,
        decreases worker_nows@.len() - i,
    {
        if worker_nows[i].0 != now.0 {
            return false;
        }
        i = i + 1;
    }
    true
}

/// Overwrites each entry of the picture that the diff holds a new value for; the two have the same
/// shape.
pub fn apply_diff<T: Copy>(texture: &mut Vec<Vec<T>>, diff: &Vec<Vec<Option<T>>>)
    requires
        old(texture)@.len() == diff@.len(),
        forall|r: int| 0 <= r < diff@.len() ==> (#[trigger] old(texture)@[r])@.len() == diff@[r]@.len(),
    ensures
        final(texture)@.len() == old(texture)@.len(),
        forall|r: int| 0 <= r < diff@.len() ==> {
            &&& (#[trigger] final(texture)@[r])@.len() == old(texture)@[r]@.len()
            &&& forall|c: int| 0 <= c < diff@[r]@.len() ==> #[trigger] final(texture)@[r]@[c] == match diff@[r]@[c] {
                Some(x) => x,
                None => old(texture)@[r]@[c],
            }
        },
{
    let mut r: usize = 0;
    while r < diff.len()
        invariant
            r <= diff@.len(),
            texture@.len() == diff@.len(),
            old(texture)@.len() == diff@.len(),
            forall|q: int| 0 <= q < diff@.len() ==> (#[trigger] old(texture)@[q])@.len() == diff@[q]@.len(),
            forall|q: int| r <= q < diff@.len() ==> #[trigger] texture@[q] == old(texture)@[q],
            forall|q: int| 0 <= q < r ==> {
                &&& (#[trigger] texture@[q])@.len() == old(texture)@[q]@.len()
                &&& forall|c: int| 0 <= c < diff@[q]@.len() ==> #[trigger] texture@[q]@[c] == match diff@[q]@[c] {
                    Some(x) => x,
                    None => old(texture)@[q]@[c],
                }
            },
        decreases diff@.len() - r,
    {
        let mut line: Vec<T> = Vec::new();
        let mut c: usize = 0;
        while c < diff[r].len()
            invariant
                r < diff@.len(),
                c <= diff@[r as int]@.len(),
                texture@.len() == diff@.len(),
                texture@[r as int] == old(texture)@[r as int],
                old(texture)@[r as int]@.len() == diff@[r as int]@.len(),
                line@.len() == c,
                forall|k: int| 0 <= k < c ==> #[trigger] line@[k] == match diff@[r as int]@[k] {
                    Some(x) => x,
                    None => old(texture)@[r as int]@[k],
                },
            decreases diff@[r as int]@.len() - c,
        {
            let v = match diff[r][c] {
                Some(x) => x,
                None => texture[r][c],
            };
            line.push(v);
            c = c + 1;
        }
        texture.set(r, line);
        r = r + 1;
    }
}

/// The render moment from which a change shows on this frame: none is assumed drawn when the
/// whole picture is redrawn, else the previous frame started one moment before `render_now`.
pub open spec fn prev_frame_start(needs_full_redraw: bool, render_now: int) -> int {
    if needs_full_redraw {
        0
    } else {
        render_now - 1
    }
}

/// The color drawn for a pixel the camera could not place (zoomed in too far), magenta.
pub open spec fn missing_pixel_color() -> u32 {
    pack_rgb(255, 0, 255)
}

/// Whether a row needs drawing at all: the whole picture is redrawn, an end of the row could not
/// be placed, or some leaf on the segment between the centers of its end pixels changed since
/// `since`.
pub open spec fn row_needs_redraw(tree: Tree, pixels: Seq<Option<Window>>, needs_full_redraw: bool, since: int) -> bool {
    let first = pixels[0];
    let last = pixels[pixels.len() - 1];
    ||| needs_full_redraw
    ||| first is None
    ||| last is None
    ||| exists|p: Seq<int>| #[trigger] tree@.is_stale_on_line(
        p,
        (first->0@.real_lo + first->0@.real_hi) / 2,
        (last->0@.real_lo + last->0@.real_hi) / 2,
        (first->0@.imag_lo + first->0@.imag_hi) / 2,
        since,
    )
}

/// The center of a pixel, rounded down.
pub open spec fn pixel_center(w: WindowView) -> (int, int) {
    ((w.real_lo + w.real_hi) / 2, (w.imag_lo + w.imag_hi) / 2)
}

/// A row is redrawn whenever the leaf under the center of any of its pixels changed since
/// `since`, with every node on the way down to it: the segment checked for changes runs from the
/// center of the first pixel to the center of the last, so it holds every pixel's center, not only
/// the first.
pub proof fn lemma_changed_pixel_redraws_row(tree: Tree, pixels: Seq<Option<Window>>, needs_full_redraw: bool, since: int, c: int)
    requires
        tree.wf(),
        0 <= c < pixels.len(),
        pixels[c] is Some,
        pixels[0] matches Some(f) ==> pixels[pixels.len() - 1] matches Some(l) ==> {
            &&& pixel_center(f@).0 <= pixel_center(pixels[c]->0@).0 <= pixel_center(l@).0
            &&& pixel_center(pixels[c]->0@).1 == pixel_center(f@).1
        },
        default_domain().contains(pixel_center(pixels[c]->0@)),
        forall|k: int| 0 <= k < tree@.descent_to_leaf(tree@.root, pixel_center(pixels[c]->0@), 0).len()
            ==> #[trigger] tree@.nodes[tree@.descent_to_leaf(tree@.root, pixel_center(pixels[c]->0@), 0)[k]].timestamp >= since,
    ensures
        row_needs_redraw(tree, pixels, needs_full_redraw, since),
{
    let first = pixels[0];
    let last = pixels[pixels.len() - 1];
    if !needs_full_redraw && first is Some && last is Some {
        tree.lemma_view_wf();
        let fc = pixel_center(first->0@);
        let lc = pixel_center(last->0@);
        let cc = pixel_center(pixels[c]->0@);
        assert(cc == (cc.0, fc.1));
        lemma_stale_point_on_line(tree@, fc.0, lc.0, fc.1, since, cc.0);
    }
}

/// Draws a row of pixels, each a window of the plane or `None` where the camera could not place
/// it: if the row needs redrawing (see `row_needs_redraw`), each placed pixel gets the color the
/// tree gives it (see `Tree::color_of_pixel`; `None` where nothing changed) and each unplaced pixel
/// magenta; otherwise nothing changes in the row.
pub fn render_row(
    tree: &Tree,
    pixels: &Vec<Option<Window>>,
    needs_full_redraw: bool,
    render_now: RenderMoment,
    draw_uncolored: bool,
) -> (r: Vec<Option<Rgb>>)
    requires
        tree.wf(),
        tree@.nodes[tree@.root].color is Some,
        pixels@.len() > 0,
        !needs_full_redraw ==> render_now.0 >= 1,
        forall|c: int| 0 <= c < pixels@.len() ==> (#[trigger] pixels@[c] matches Some(w) ==> w@.sums_fit()),
        pixels@[0] matches Some(f) ==> pixels@[pixels@.len() - 1] matches Some(l) ==> {
            &&& (f@.real_lo + f@.real_hi) / 2 <= (l@.real_lo + l@.real_hi) / 2
            &&& (f@.imag_lo + f@.imag_hi) / 2 == (l@.imag_lo + l@.imag_hi) / 2
        },
    ensures
        r@.len() == pixels@.len(),
        forall|c: int| 0 <= c < pixels@.len() ==> #[trigger] r@[c] == {
            let since = prev_frame_start(needs_full_redraw, render_now.0 as int);
            if !row_needs_redraw(*tree, pixels@, needs_full_redraw, since) {
                None
            } else {
                match pixels@[c] {
                    None => Some(Rgb(missing_pixel_color())),
                    Some(w) => match tree@.pixel_color(w@, since, draw_uncolored) {
                        Some(x) => Some(Rgb(x)),
                        None => None,
                    },
                }
            }
        },
{
    let prev = if needs_full_redraw {
        MomentInner::min_moment()
    } else {
        render_now.sub(1)
    };
    let ghost since = prev_frame_start(needs_full_redraw, render_now.0 as int);
    let n = pixels.len();
    let needs = if needs_full_redraw {
        true
    } else {
        match (pixels[0], pixels[n - 1]) {
            (Some(first), Some(last)) => {
                let imag = first.imag_mid();
                let real_lo = first.real_mid();
                let real_hi = last.real_mid();
                tree.any_on_line_needs_redraw(real_lo, real_hi, imag, prev)
            },
            _ => true,
        }
    };
    proof {
        assert(needs == row_needs_redraw(*tree, pixels@, needs_full_redraw, since));
    }
    let mut out: Vec<Option<Rgb>> = Vec::new();
    let mut c: usize = 0;
    while c < n
        invariant
            n == pixels@.len(),
            c <= n,
            out@.len() == c,
            tree.wf(),
            tree@.nodes[tree@.root].color is Some,
            prev.0 == since,
            forall|q: int| 0 <= q < pixels@.len() ==> (#[trigger] pixels@[q] matches Some(w) ==> w@.sums_fit()),
            needs == row_needs_redraw(*tree, pixels@, needs_full_redraw, since),
            forall|q: int| 0 <= q < c ==> #[trigger] out@[q] == {
                if !needs {
                    None
                } else {
                    match pixels@[q] {
                        None => Some(Rgb(missing_pixel_color())),
                        Some(w) => match tree@.pixel_color(w@, since, draw_uncolored) {
                            Some(x) => Some(Rgb(x)),
                            None => None,
                        },
                    }
                }
            },
        decreases n - c,
    {
        let v = if !needs {
            None
        } else {
            match pixels[c] {
                None => Some(Rgb::new(255, 0, 255)),
                Some(w) => tree.color_of_pixel(w, prev, draw_uncolored),
            }
        };
        out.push(v);
        c = c + 1;
    }
    out
}

} // verus!
