use lib::callspecs::FuncCallSpecs;
use lib::graph::OpId;

#[test]
fn setting_one_estimate_keeps_the_later_ones() {
    let mut spec = FuncCallSpecs::new(OpId(0));
    assert!(spec.set_input_bytes_consumed(3, 8));
    assert!(spec.set_input_bytes_consumed(1, 4));
    assert_eq!(spec.input_bytes_consumed(1), 4);
    assert_eq!(spec.input_bytes_consumed(3), 8);
    assert!(!spec.set_input_bytes_consumed(3, 9));
    assert_eq!(spec.input_bytes_consumed(3), 8);
    assert!(!spec.set_input_bytes_consumed(2, -1));
    assert_eq!(spec.input_bytes_consumed(0), 0);
}
