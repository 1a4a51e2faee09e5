use fractal::complex::fixed::Fixed;
use fractal::complex::window::Window;
use fractal::pool::frame::{apply_diff, reclaim_tick_ready, render_row};
use fractal::pool::worker::{next_task, Task, Worker};
use fractal::tree::moment::MomentInner;
use fractal::tree::quadtree::Tree;
use fractal::tree::rgb::Rgb;

fn fx(f: f64) -> Fixed {
    Fixed::from_f64_bits(f.to_bits())
}

fn win(real_lo: f64, real_hi: f64, imag_lo: f64, imag_hi: f64) -> Window {
    Window::new(fx(real_lo), fx(real_hi), fx(imag_lo), fx(imag_hi))
}

fn pixel_at(real: f64, imag: f64) -> Window {
    win(real - 0.001, real + 0.001, imag - 0.001, imag + 0.001)
}

fn m(t: i32) -> MomentInner {
    MomentInner::new(t)
}

#[test]
fn tasks_go_in_priority_order() {
    assert_eq!(next_task(Task::Render, false), Some(Task::Insert));
    assert_eq!(next_task(Task::Insert, false), Some(Task::Sample));
    assert_eq!(next_task(Task::Sample, false), Some(Task::Free));
    assert_eq!(next_task(Task::Free, false), Some(Task::Retire));
    assert_eq!(next_task(Task::Retire, false), Some(Task::Refine));
    assert_eq!(next_task(Task::Refine, false), Some(Task::Idle));
    assert_eq!(next_task(Task::Idle, false), None);
    for t in [Task::Render, Task::Insert, Task::Sample, Task::Free, Task::Retire, Task::Refine, Task::Idle] {
        assert_eq!(next_task(t, true), None);
    }
}

#[test]
fn reclaim_ticks_when_every_worker_caught_up() {
    assert!(reclaim_tick_ready(m(3), &vec![m(3), m(3)]));
    assert!(!reclaim_tick_ready(m(3), &vec![m(3), m(2)]));
    assert!(reclaim_tick_ready(m(3), &vec![]));
}

#[test]
fn diff_overwrites_only_changed_entries() {
    let mut texture = vec![vec![1, 2, 3], vec![4, 5, 6]];
    let diff = vec![vec![None, Some(20), None], vec![Some(40), None, Some(60)]];
    apply_diff(&mut texture, &diff);
    assert_eq!(texture, vec![vec![1, 20, 3], vec![40, 5, 60]]);
}

#[test]
fn worker_refines_samples_and_inserts() {
    let mut tree = Tree::new(Rgb::new(0, 255, 0));
    let mut w = Worker::new(m(0));
    assert!(!w.try_insert(&mut tree, m(1)));
    assert!(!w.try_sample(Rgb::new(0, 0, 0)));
    assert_eq!(w.sample_point(), None);
    assert!(w.try_refine(&mut tree, win(-4.0, 4.0, -4.0, 4.0), None, None, false, false, m(1)));
    assert_eq!(tree.node_count(), 5);
    // the last child is sampled first
    let expected = [(fx(2.0), fx(-2.0)), (fx(-2.0), fx(-2.0)), (fx(2.0), fx(2.0)), (fx(-2.0), fx(2.0))];
    let colors = [Rgb::new(1, 1, 1), Rgb::new(2, 2, 2), Rgb::new(3, 3, 3), Rgb::new(4, 4, 4)];
    for (p, c) in expected.iter().zip(colors.iter()) {
        assert_eq!(w.sample_point(), Some(*p));
        assert!(w.try_sample(*c));
        assert!(w.has_sample_to_insert());
        assert!(w.try_insert(&mut tree, m(2)));
        assert!(!w.has_sample_to_insert());
    }
    assert_eq!(w.sample_point(), None);
    assert_eq!(tree.color_of_pixel(pixel_at(2.5, -2.5), m(0), false), Some(colors[0]));
    assert_eq!(tree.color_of_pixel(pixel_at(-2.5, 2.5), m(0), false), Some(colors[3]));
}

#[test]
fn worker_frees_retired_blocks_three_moments_later() {
    let mut tree = Tree::new(Rgb::new(0, 255, 0));
    let mut w = Worker::new(m(0));
    let all = win(-4.0, 4.0, -4.0, 4.0);
    assert!(w.try_refine(&mut tree, all, None, None, false, false, m(1)));
    for _ in 0..4 {
        assert!(w.try_sample(Rgb::new(9, 9, 9)));
        assert!(w.try_insert(&mut tree, m(1)));
    }
    // retiring at depth 0 takes the root's children
    assert!(w.try_retire(&mut tree, win(-1.0, 1.0, -1.0, 1.0), Some(fx(8.0)), m(2)));
    assert_eq!(w.nursing_home_len(), 1);
    assert_eq!(tree.node_count(), 1);
    // nothing left to retire
    assert!(!w.try_retire(&mut tree, win(-1.0, 1.0, -1.0, 1.0), Some(fx(8.0)), m(2)));
    assert!(!w.try_free(&mut tree));
    for now in 1..3 {
        assert!(w.update_reclaim_now(m(now)));
        assert!(!w.update_reclaim_now(m(now)));
        assert!(!w.try_free(&mut tree));
    }
    assert!(w.update_reclaim_now(m(3)));
    assert_eq!(w.local_reclaim_now(), m(3));
    assert!(w.try_free(&mut tree));
    assert_eq!(w.nursing_home_len(), 0);
    assert!(!w.try_free(&mut tree));
    // the freed block is taken by the next split
    assert!(w.try_refine(&mut tree, all, None, None, false, false, m(4)));
    assert_eq!(tree.node_count(), 5);
}

#[test]
fn render_row_colors_or_skips() {
    let mut tree = Tree::new(Rgb::new(0, 255, 0));
    let mids = tree.refine(win(-4.0, 4.0, -4.0, 4.0), None, None, false, false, m(1)).unwrap();
    tree.insert(mids[0], Rgb::new(255, 0, 0), m(1));
    let row = vec![Some(pixel_at(-2.5, 2.5)), None, Some(pixel_at(2.5, 2.5))];
    let full = render_row(&tree, &row, true, m(2), false);
    assert_eq!(full, vec![Some(Rgb::new(255, 0, 0)), Some(Rgb::new(255, 0, 255)), Some(Rgb::new(0, 255, 0))]);
    // an end pixel that could not be placed forces a redraw of the row, but nothing on the way
    // to its placed pixels changed since moment 4
    let row = vec![Some(pixel_at(-2.5, 2.5)), Some(pixel_at(0.5, 2.5)), None];
    assert_eq!(render_row(&tree, &row, false, m(5), false), vec![None, None, Some(Rgb::new(255, 0, 255))]);
    // nothing changed on the row since moment 1, and its ends are placed: nothing is drawn
    let row = vec![Some(pixel_at(-2.5, 2.5)), Some(pixel_at(2.5, 2.5))];
    assert_eq!(render_row(&tree, &row, false, m(3), false), vec![None, None]);
    // the changes at moment 1 show on the frame that starts at moment 2
    assert_eq!(
        render_row(&tree, &row, false, m(2), false),
        vec![Some(Rgb::new(255, 0, 0)), Some(Rgb::new(0, 255, 0))]
    );
}
