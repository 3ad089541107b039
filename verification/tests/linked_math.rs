use uinfinite::linked_math::chain_mul;
use uinfinite::linked_math::link_chunks;
use uinfinite::u_infinite::UInfinite;

fn parse(s: &str) -> UInfinite {
    UInfinite::from_string(s).unwrap()
}

#[test]
fn link_chunks_folds_addition() {
    let chunks = [parse("1"), parse("2"), parse("3")];
    let total = link_chunks(&chunks).unwrap();
    assert_eq!(total.to_string(), parse("6").to_string());
}

#[test]
fn link_chunks_of_nothing_is_zero() {
    let chunks: [UInfinite; 0] = [];
    assert_eq!(link_chunks(&chunks).unwrap().to_string(), "0");
}

#[test]
fn link_chunks_carries_across_chunks() {
    let chunks = [parse("999"), parse("1"), parse("1000")];
    assert_eq!(link_chunks(&chunks).unwrap().to_string(), "2000");
}

#[test]
fn chain_mul_scales_each_chunk() {
    let chunks = [parse("1"), parse("2"), parse("3")];
    let m = parse("10");
    assert_eq!(chain_mul(&chunks, &m).unwrap().to_string(), "60");
}

#[test]
fn chain_mul_by_zero_is_zero() {
    let chunks = [parse("123"), parse("456")];
    let m = parse("0");
    assert_eq!(chain_mul(&chunks, &m).unwrap().to_string(), "0");
}
