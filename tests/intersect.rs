use std::io;

use intersect_bio::{ChromDict, ChromPos, Intersect, Positions, Search};

fn mock_source<'a>(v: Vec<(&'a str, u32)>) -> impl Iterator<Item = io::Result<(&'a str, u32)>> {
    v.into_iter().map(|x| Ok(x))
}

fn mock_input<'a>(
    vs: Vec<Vec<(&'a str, u32)>>,
) -> Vec<impl Iterator<Item = io::Result<(&'a str, u32)>>> {
    vs.into_iter().map(|x| mock_source(x)).collect()
}

#[test]
fn intersect() {
    let dict = ChromDict::from_ids(vec!["2", "4"]);

    let input = mock_input(vec![
        vec![("1", 1), ("1", 2), ("2", 1), ("2", 3), ("4", 1)],
        vec![
            ("1", 1),
            ("1", 2),
            ("2", 2),
            ("2", 3),
            ("4", 1),
            ("4", 5),
            ("5", 1),
        ],
        vec![("2", 1), ("2", 2), ("2", 3), ("3", 1), ("4", 1), ("4", 7)],
    ]);

    let mut intersect = Intersect::new(input, dict);

    assert_eq!(
        intersect.next().unwrap().unwrap(),
        vec![("2", 3), ("2", 3), ("2", 3)]
    );
    assert_eq!(
        intersect.next().unwrap().unwrap(),
        vec![("4", 1), ("4", 1), ("4", 1)]
    );
    assert!(matches!(intersect.next(), None));
}

#[test]
fn positions_intersect() {
    let mut positions = Positions(vec![("1", 1), ("1", 1), ("1", 1), ("1", 1), ("1", 1)]);
    assert!(positions.is_intersection());

    positions.0[0] = ("1", 2);
    assert!(!positions.is_intersection());

    positions.0[0] = ("2", 1);
    assert!(!positions.is_intersection());
}

#[test]
fn positions_argmax() {
    let dict = ChromDict::from_ids(vec!["1", "2"]);

    let mut positions = Positions(vec![("1", 1), ("1", 2), ("1", 5), ("1", 1), ("1", 3)]);
    assert_eq!(positions.argmax(&dict), Some(2));

    positions.0[1] = ("1", 5);
    assert_eq!(positions.argmax(&dict), Some(1));

    positions.0[4] = ("2", 1);
    assert_eq!(positions.argmax(&dict), Some(4));

    positions.0[4] = ("3", 1);
    assert_eq!(positions.argmax(&dict), None);
}

#[test]
fn search_candidate() {
    let positions = vec![("1", 1), ("1", 2), ("2", 1), ("2", 3), ("4", 2), ("5", 1)];

    let dict = ChromDict::from_ids(vec!["2", "4"]);

    let mut search = Search::new(positions.into_iter().map(|x| Ok(x)));

    assert_eq!(search.next_candidate(&dict).unwrap().unwrap(), ("2", 1));
    assert_eq!(search.next_candidate(&dict).unwrap().unwrap(), ("2", 3));
    assert_eq!(search.next_candidate(&dict).unwrap().unwrap(), ("4", 2));
    assert!(matches!(search.next_candidate(&dict), None));
}

#[test]
fn search_position() {
    let positions = vec![("1", 1), ("1", 2), ("2", 1), ("2", 3), ("4", 2), ("5", 1)];

    let dict = ChromDict::from_ids(vec!["2", "4"]);

    let mut iter = Search::new(positions.into_iter().map(|x| Ok(x)));

    assert_eq!(iter.search(&("2", 1), &dict).unwrap().unwrap(), ("2", 1));
    assert_eq!(iter.search(&("2", 2), &dict).unwrap().unwrap(), ("2", 3));
    assert_eq!(iter.search(&("4", 1), &dict).unwrap().unwrap(), ("4", 2));
    assert!(matches!(iter.search(&("4", 3), &dict), None));
}

#[test]
fn positions_len_counts_sources() {
    let positions = Positions(vec![("1", 1), ("2", 1), ("3", 1)]);
    assert_eq!(positions.len(), 3);
}

#[test]
fn argmax_single_position_off_dictionary() {
    let dict = ChromDict::from_ids(vec!["1"]);
    let positions = Positions(vec![("7", 1)]);
    assert_eq!(positions.argmax(&dict), Some(0));
}

#[test]
fn argmax_ties_keep_first_across_chromosomes() {
    let dict = ChromDict::from_ids(vec!["1", "2"]);
    let positions = Positions(vec![("1", 9), ("2", 3), ("1", 50), ("2", 3)]);
    assert_eq!(positions.argmax(&dict), Some(1));
}

#[test]
fn search_never_returns_less_than_target() {
    let dict = ChromDict::from_ids(vec!["1", "2"]);
    let source = vec![("1", 1), ("1", 4), ("1", 9), ("2", 2), ("2", 8)];
    let mut iter = Search::new(source.into_iter().map(|x| Ok(x)));

    let targets = [("1", 3), ("1", 9), ("2", 1), ("2", 5)];
    let mut previous: Option<(&str, u32)> = None;
    for target in targets.iter() {
        let found = iter.search(target, &dict).unwrap().unwrap();
        assert_ne!(dict.compare(&found, target), Some(std::cmp::Ordering::Less));
        if let Some(p) = previous {
            assert_ne!(dict.compare(&found, &p), Some(std::cmp::Ordering::Less));
        }
        previous = Some(found);
    }
    assert_eq!(previous, Some(("2", 8)));
}

#[test]
fn search_target_off_dictionary_ends_search() {
    let dict = ChromDict::from_ids(vec!["1"]);
    let source = vec![("1", 1), ("1", 2)];
    let mut iter = Search::new(source.into_iter().map(|x| Ok(x)));

    assert!(iter.search(&("9", 1), &dict).is_none());
    assert_eq!(iter.next_candidate(&dict).unwrap().unwrap(), ("1", 2));
}

#[test]
fn search_passes_errors_through() {
    let dict = ChromDict::from_ids(vec!["1"]);
    let source: Vec<io::Result<(&str, u32)>> = vec![
        Ok(("1", 1)),
        Err(io::Error::new(io::ErrorKind::Other, "broken record")),
        Ok(("1", 5)),
    ];
    let mut iter = Search::new(source.into_iter());

    let err = iter.search(&("1", 3), &dict).unwrap().unwrap_err();
    assert_eq!(err.to_string(), "broken record");
    assert_eq!(iter.search(&("1", 3), &dict).unwrap().unwrap(), ("1", 5));
}

#[test]
fn intersect_surfaces_source_error() {
    let dict = ChromDict::from_ids(vec!["1"]);
    let first = vec![Ok(("1", 1)), Ok(("1", 2))];
    let second = vec![
        Ok(("1", 1)),
        Err(io::Error::new(io::ErrorKind::Other, "bad line")),
    ];
    let mut intersect = Intersect::new(vec![first.into_iter(), second.into_iter()], dict);

    assert_eq!(intersect.next().unwrap().unwrap(), vec![("1", 1), ("1", 1)]);
    let err = intersect.next().unwrap().unwrap_err();
    assert_eq!(err.to_string(), "bad line");
}

#[test]
fn empty_source_gives_empty_result() {
    let dict = ChromDict::from_ids(vec!["1", "2"]);
    let input = mock_input(vec![
        vec![("1", 1), ("1", 2), ("2", 5)],
        vec![],
        vec![("1", 1), ("1", 2), ("2", 5)],
    ]);
    let mut intersect = Intersect::new(input, dict);
    assert!(intersect.next().is_none());
}

#[test]
fn no_common_chromosomes_gives_empty_result() {
    let dict = ChromDict::from_intersection(vec![vec!["1", "2"], vec!["3", "4"]]);
    assert_eq!(dict, ChromDict::new());

    let input = mock_input(vec![
        vec![("1", 1), ("2", 1)],
        vec![("3", 1), ("4", 1)],
    ]);
    let mut intersect = Intersect::new(input, dict);
    assert!(intersect.next().is_none());
}

#[test]
fn single_source_yields_every_candidate() {
    let dict = ChromDict::from_ids(vec!["1"]);
    let input = mock_input(vec![vec![("1", 4), ("2", 1), ("1", 6)]]);
    let mut intersect = Intersect::new(input, dict);
    assert_eq!(intersect.next().unwrap().unwrap(), vec![("1", 4)]);
    assert_eq!(intersect.next().unwrap().unwrap(), vec![("1", 6)]);
    assert!(intersect.next().is_none());
}

#[test]
fn intersect_owned_chromosome_names() {
    let dict = ChromDict::from_ids(vec!["chr1", "chr2"]);
    let a = vec![("chr1".to_string(), 10), ("chr2".to_string(), 3)];
    let b = vec![("chr1".to_string(), 11), ("chr2".to_string(), 3)];
    let input: Vec<_> = vec![a, b]
        .into_iter()
        .map(|v| v.into_iter().map(|x| Ok(x)))
        .collect();
    let mut intersect = Intersect::new(input, dict);
    let site = intersect.next().unwrap().unwrap();
    assert_eq!(site[0].chrom(), "chr2");
    assert_eq!(site[1].pos(), 3);
    assert!(intersect.next().is_none());
}

#[test]
fn chrom_pos_intersect_needs_both_fields() {
    assert!(("1", 1).intersect(&("1", 1)));
    assert!(!("1", 1).intersect(&("1", 2)));
    assert!(!("1", 1).intersect(&("2", 1)));
}

#[test]
fn next_in_dict() {
    let positions = vec![("1", 1), ("1", 2), ("2", 1), ("2", 3), ("4", 2), ("5", 1)];

    let dict = ChromDict::from_ids(vec!["2", "4"]);

    let mut search = Search::new(positions.into_iter().map(|x| Ok(x)));

    assert!(matches!(search.next_candidate(&dict), Some(Ok(("2", 1)))));
    assert!(matches!(search.next_candidate(&dict), Some(Ok(("2", 3)))));
    assert!(matches!(search.next_candidate(&dict), Some(Ok(("4", 2)))));
    assert!(matches!(search.next_candidate(&dict), None));
}

#[test]
fn search() {
    let positions = vec![("1", 1), ("1", 2), ("2", 1), ("2", 3), ("4", 2), ("5", 1)];

    let dict = ChromDict::from_ids(vec!["2", "4"]);

    let mut iter = Search::new(positions.into_iter().map(|x| Ok(x)));

    assert!(matches!(iter.search(&("2", 1), &dict), Some(Ok(("2", 1)))));
    assert!(matches!(iter.search(&("2", 2), &dict), Some(Ok(("2", 3)))));
    assert!(matches!(iter.search(&("4", 1), &dict), Some(Ok(("4", 2)))));
    assert!(matches!(iter.search(&("4", 3), &dict), None));
}
