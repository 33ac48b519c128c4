use tracer_r::partitionable::PScene;
use tracer_r::raytracer::Raytracer;
use tracer_r::utils::parse_pair;

#[test]
fn parse_pair_reads_image_dimensions() {
    assert_eq!(parse_pair("640x480", 'x'), Some((640, 480)));
    assert_eq!(parse_pair("0,0", ','), Some((0, 0)));
    assert_eq!(parse_pair("+7x+08", 'x'), Some((7, 8)));
}

#[test]
fn parse_pair_needs_the_delimiter() {
    assert_eq!(parse_pair("640480", 'x'), None);
    assert_eq!(parse_pair("", 'x'), None);
}

#[test]
fn parse_pair_splits_at_the_first_delimiter() {
    assert_eq!(parse_pair("1x2x3", 'x'), None);
    assert_eq!(parse_pair("x12", 'x'), None);
    assert_eq!(parse_pair("12x", 'x'), None);
}

#[test]
fn parse_pair_rejects_what_is_no_number() {
    assert_eq!(parse_pair("12x-3", 'x'), None);
    assert_eq!(parse_pair(" 12x3", 'x'), None);
    assert_eq!(parse_pair("12x3 ", 'x'), None);
    assert_eq!(parse_pair("+x3", 'x'), None);
    assert_eq!(parse_pair("1.5x3", 'x'), None);
    assert_eq!(parse_pair("١٢x3", 'x'), None);
}

#[test]
fn parse_pair_rejects_numbers_that_do_not_fit() {
    let max = usize::MAX.to_string();
    assert_eq!(parse_pair(&format!("{}x1", max), 'x'), Some((usize::MAX, 1)));
    assert_eq!(parse_pair(&format!("{}0x1", max), 'x'), None);
    assert_eq!(parse_pair("1x99999999999999999999999999", 'x'), None);
}

#[test]
fn parse_pair_takes_any_delimiter() {
    assert_eq!(parse_pair("3×4", '×'), Some((3, 4)));
}

#[test]
fn parse_pair_agrees_with_the_standard_parser() {
    let samples = ["1x2", "+1x2", "01x002", "x", "1x", "ax1", "1x+", "18446744073709551616x0"];
    for s in samples {
        let expected = match s.find('x') {
            Some(i) => match (s[..i].parse::<usize>(), s[i + 1..].parse::<usize>()) {
                (Ok(l), Ok(r)) => Some((l, r)),
                _ => None,
            },
            None => None,
        };
        assert_eq!(parse_pair(s, 'x'), expected);
    }
}

#[test]
fn scene_is_worth_partitioning_with_two_elements() {
    assert!(!PScene::<u8>::new(vec![]).worth_partitioning());
    assert!(!PScene::new(vec![1u8]).worth_partitioning());
    assert!(PScene::new(vec![1u8, 2]).worth_partitioning());
}

#[test]
fn raytracer_builders_replace_one_setting() {
    let rt = Raytracer::default().ss_amt(16).max_depth(32);
    assert_eq!(rt.ss_amt, 16);
    assert_eq!(rt.max_depth, 32);
    let rt = rt.ss_amt(4);
    assert_eq!(rt.ss_amt, 4);
    assert_eq!(rt.max_depth, 32);
}

#[test]
fn raytracer_default_settings() {
    let rt = Raytracer::default();
    assert_eq!(rt.ss_amt, 8);
    assert_eq!(rt.max_depth, 256);
}
