use ligeia::logic::Logic;
use ligeia::unsized_types::{
    size_from_meta, Bit, BitSlice, BitType, KnownUnsized, KnownUnsizedVec, Qit, ValueChangeNode,
};

fn all<T: BitType + PartialEq>(slice: &BitSlice<T>, digit: T) -> bool {
    let mut iter = slice.iter();
    while let Some(found) = iter.next() {
        if found != digit {
            return false;
        }
    }
    true
}

#[test]
fn bit_slice_uninit() {
    let s = BitSlice::<Qit>::new_boxed(15);
    assert!(all(&s, Qit::X), "uninit qit failed");

    let s = BitSlice::<Bit>::new_boxed(15);
    assert!(all(&s, Bit::Zero), "uninit bit failed");
}

#[test]
fn bit_slice_update() {
    let mut s = BitSlice::<Bit>::new_boxed(42);
    s.update(|_| Bit::One);
    assert!(all(&s, Bit::One), "bit update failed");

    let mut s = BitSlice::<Qit>::new_boxed(15);
    s.update(|_| Qit::One);
    assert!(all(&s, Qit::One), "bit update failed");
}

#[test]
fn bit_slice_mix() {
    let mut s = BitSlice::<Bit>::new_boxed(42);
    let mut s2 = BitSlice::<Bit>::new_boxed(42);
    s2.update(|_| Bit::One);

    s.mix(&s2, |_b, b2| b2);

    assert!(all(&s, Bit::One), "bit update failed");
}

#[test]
fn value_change_aligned_slice() {
    // The bits of a node lie one timestamp behind its start.
    assert_eq!(ValueChangeNode::<Bit>::bits_offset(), std::mem::size_of::<u64>());
    assert_eq!(size_from_meta::<ValueChangeNode<Bit>>(0), std::mem::size_of::<u64>());

    let mut v = KnownUnsizedVec::<ValueChangeNode<Bit>>::with_capacity_in(3, 1);
    let mut bits = BitSlice::<Bit>::new_boxed(3);
    bits.update(|_| Bit::One);
    v.push(&bits, 0x1122_3344_5566_7788);
    let (header, found) = v.get(0);
    assert_eq!(header.len(), std::mem::size_of::<u64>());
    assert_eq!(header, vec![0x88, 0x77, 0x66, 0x55, 0x44, 0x33, 0x22, 0x11]);
    assert_eq!(found.bytes(), &[0b0000_0111u8][..]);
}

#[test]
fn known_unsized_vec_push() {
    let mut s = BitSlice::<Qit>::new_boxed(15);
    s.update(|_| Qit::One);
    let s2 = BitSlice::<Qit>::new_boxed(15);

    let mut v = KnownUnsizedVec::<BitSlice<Qit>>::with_capacity_in(15, 2);
    v.push(&s, ());
    v.push(&s2, ());

    assert_eq!(v.get(0).1.iter().next(), Some(Qit::One));

    assert_eq!(v.get(1).1.iter().next(), Some(Qit::X));
    assert_eq!(v.len(), 2);
    assert_eq!(v.meta(), 15);
}

#[test]
fn digits_pack_from_the_low_bits_up() {
    let bytes = [0b1110_0100u8, 0b0000_0001u8];
    let slice = BitSlice::<Qit>::new(5, &bytes);
    assert_eq!(slice.len(), 5);
    assert_eq!(slice.get(0), Qit::Zero);
    assert_eq!(slice.get(1), Qit::One);
    assert_eq!(slice.get(2), Qit::X);
    assert_eq!(slice.get(3), Qit::Z);
    assert_eq!(slice.get(4), Qit::One);
    let bits = BitSlice::<Bit>::new(3, &bytes);
    assert_eq!(bits.bytes(), &[0b1110_0100u8][..]);
    assert_eq!(bits.get(2), Bit::One);
    assert_eq!(Bit::uninit_byte(), 0);
    assert_eq!(Qit::uninit_byte(), 0b1010_1010);
    assert_eq!(Bit::format_prefix(), "b");
    assert_eq!(Qit::format_prefix(), "q");
}

#[test]
fn record_layout() {
    assert_eq!(<BitSlice<Qit> as KnownUnsized>::header_size(), 0);
    assert_eq!(<BitSlice<Qit> as KnownUnsized>::align(), 1);
    assert_eq!(<ValueChangeNode<Qit> as KnownUnsized>::header_size(), 8);
    assert_eq!(<ValueChangeNode<Qit> as KnownUnsized>::align(), 8);
    assert_eq!(size_from_meta::<BitSlice<Qit>>(15), 4);
    assert_eq!(size_from_meta::<ValueChangeNode<Qit>>(15), 12);
    assert_eq!(size_from_meta::<ValueChangeNode<Bit>>(15), 10);

    // Nodes are padded to a multiple of 8.
    let mut v = KnownUnsizedVec::<ValueChangeNode<Qit>>::with_capacity_in(15, 0);
    let mut a = BitSlice::<Qit>::new_boxed(15);
    a.update(|q| if q == Qit::X { Qit::Z } else { q });
    let b = BitSlice::<Qit>::new_boxed(15);
    v.push(&a, 5);
    v.push(&b, 6);
    let (header, bits) = v.get(1);
    assert_eq!(header, vec![6, 0, 0, 0, 0, 0, 0, 0]);
    assert_eq!(bits.get(14), Qit::X);
    let (header, bits) = v.get(0);
    assert_eq!(header, vec![5, 0, 0, 0, 0, 0, 0, 0]);
    assert_eq!(bits.get(14), Qit::Z);
}
