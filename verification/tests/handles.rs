use fractal::tree::handle::{BlockHandle, BlockHandleError, NodeHandle};
use fractal::tree::moment::MomentInner;
use fractal::tree::rgb::{Rgb, RgbError};

#[test]
fn handles_round_trip() {
    let n = NodeHandle::new(13);
    assert_eq!(n.to_index(), 13);
    let b = n.to_block();
    assert_eq!(b.to_node(), NodeHandle::new(12));
    assert_eq!(b.offset(1), n);
    let s = b.siblings();
    for (k, h) in s.iter().enumerate() {
        assert_eq!(h.to_index(), 12 + k);
        assert_eq!(b.offset(k), *h);
    }
    assert_eq!(BlockHandle::try_from_node(NodeHandle::new(12)), Ok(b));
    assert_eq!(BlockHandle::try_from_node(n), Err(BlockHandleError::Unaligned));
    assert_eq!(NodeHandle::uninit(), NodeHandle::new(0xABCD_EFAB));
    assert_eq!(BlockHandle::uninit().to_node(), NodeHandle::new(0xABCD_EFA8));
}

#[test]
fn rgb_packing() {
    let c = Rgb::new(1, 2, 3);
    assert_eq!(c.to_rgba(), (1, 2, 3, 255));
    assert_eq!(Rgb::try_from_rgba(1, 2, 3, 255), Ok(c));
    assert_eq!(Rgb::try_from_rgba(1, 2, 3, 254), Err(RgbError::AlphaNotOpaque));
    assert_ne!(Rgb::new(3, 2, 1), c);
    assert_eq!(Rgb::uninit(), Rgb(0xABCD_EFAB));
}

#[test]
fn moments_count() {
    let m = MomentInner::new(5);
    assert_eq!(m.add(3), MomentInner::new(8));
    assert_eq!(m.sub(5), MomentInner::min_moment());
    let mut k = MomentInner::min_moment();
    k.add_assign(2);
    assert_eq!(k, MomentInner::new(2));
    assert!(MomentInner::new(1) < MomentInner::new(2));
    assert_eq!(MomentInner::uninit(), MomentInner(-987123));
    assert_eq!(MomentInner::default(), MomentInner::min_moment());
}
