use intrusive_mpsc::dyn_link::DynLink;
use intrusive_mpsc::{container_of, field_of};

#[test]
fn new_dyn_link_is_cleared() {
    let link: DynLink<3> = DynLink::new();
    assert_eq!(link.word(0), 0);
    assert_eq!(link.word(1), 0);
    assert_eq!(link.word(2), 0);
}

#[test]
fn default_dyn_link_is_cleared() {
    let link: DynLink<1> = DynLink::default();
    assert_eq!(link.word(0), 0);
    let none: DynLink<0> = DynLink::default();
    assert!(format!("{:?}", none).contains("DynLink"));
}

#[test]
fn field_lies_offset_bytes_into_the_node() {
    assert_eq!(field_of(0x1000, 24), 0x1018);
    assert_eq!(field_of(0x1000, 0), 0x1000);
    assert_eq!(field_of(usize::MAX - 8, 8), usize::MAX);
}

#[test]
fn container_lies_offset_bytes_before_the_field() {
    assert_eq!(container_of(0x1018, 24), 0x1000);
    assert_eq!(container_of(0x1000, 0), 0x1000);
    assert_eq!(container_of(8, 8), 0);
}

#[test]
fn translation_goes_there_and_back() {
    for node in [1usize, 0x1000, 0xffff_0000] {
        for offset in [0usize, 8, 40] {
            assert_eq!(container_of(field_of(node, offset), offset), node);
        }
    }
}
