use ft_core::timeblock::parse_line;
use ft_core::timeblock::report::{minutes_to_hours_minutes, total_minutes};
use ft_core::timeblock::Timeblock;

fn parse(s: &str) -> Timeblock {
    parse_line(s).unwrap()
}

#[test]
fn total_minutes_sums_blocks() {
    let blocks = vec![parse("09:00 - 10:00 a"), parse("10:00 - 10:30 b")];
    assert_eq!(total_minutes(&blocks), 90);
}

#[test]
fn total_minutes_excludes_break() {
    let blocks = vec![
        parse("09:00 - 10:00 work thing @work"),
        parse("10:00 - 10:30 coffee @break"),
    ];
    assert_eq!(total_minutes(&blocks), 60);
}

#[test]
fn minutes_to_hours_minutes_split() {
    assert_eq!(minutes_to_hours_minutes(0), (0, 0));
    assert_eq!(minutes_to_hours_minutes(59), (0, 59));
    assert_eq!(minutes_to_hours_minutes(60), (1, 0));
    assert_eq!(minutes_to_hours_minutes(125), (2, 5));
}

#[test]
fn total_minutes_of_nothing_is_zero() {
    assert_eq!(total_minutes(&Vec::new()), 0);
}

#[test]
fn sub_level_break_still_counts() {
    let blocks = vec![parse("09:00 - 10:00 x @work/break")];
    assert_eq!(total_minutes(&blocks), 60);
}

use ft_core::timeblock::report::{time_per_tag, TagTime};

#[test]
fn time_per_tag_groups_by_top_level() {
    let blocks = vec![
        parse("09:00 - 10:00 a @work"),
        parse("10:00 - 11:00 b @work"),
        parse("11:00 - 11:30 c @personal"),
    ];
    let tags = time_per_tag(&blocks);
    assert_eq!(tags.len(), 2);
    assert_eq!(tags[0].tag, "work");
    assert_eq!(tags[0].minutes, 120);
    assert_eq!(tags[1].tag, "personal");
    assert_eq!(tags[1].minutes, 30);
}

#[test]
fn time_per_tag_nests_sub_levels() {
    let blocks = vec![
        parse("09:00 - 10:00 a @work/meeting"),
        parse("10:00 - 11:00 b @work/meeting/1on1"),
        parse("11:00 - 11:30 c @work/code"),
    ];
    let tags = time_per_tag(&blocks);
    assert_eq!(tags.len(), 1);
    assert_eq!(tags[0].tag, "work");
    assert_eq!(tags[0].minutes, 150);

    let meeting = tags[0].children.iter().find(|c| c.tag == "meeting").unwrap();
    assert_eq!(meeting.minutes, 120);
    let one_on_one = meeting.children.iter().find(|c| c.tag == "1on1").unwrap();
    assert_eq!(one_on_one.minutes, 60);
}

#[test]
fn time_per_tag_sorts_descending_at_every_level() {
    let blocks = vec![
        parse("09:00 - 09:30 short @a"),
        parse("10:00 - 12:00 long @b"),
        parse("12:00 - 13:00 mid @c"),
    ];
    let tags = time_per_tag(&blocks);
    let names: Vec<&str> = tags.iter().map(|t| t.tag.as_str()).collect();
    assert_eq!(names, vec!["b", "c", "a"]);
}

#[test]
fn time_per_tag_includes_break_unlike_blockary() {
    let blocks = vec![parse("09:00 - 10:00 work @work"), parse("10:00 - 10:30 coffee @break")];
    let tags = time_per_tag(&blocks);
    assert!(tags.iter().any(|t| t.tag == "break"));
}

#[test]
fn time_per_tag_ties_break_by_tag_name() {
    let blocks = vec![parse("09:00 - 10:00 x @zeta"), parse("10:00 - 11:00 y @alpha")];
    let tags = time_per_tag(&blocks);
    let names: Vec<&str> = tags.iter().map(|t| t.tag.as_str()).collect();
    assert_eq!(names, vec!["alpha", "zeta"]);
}

#[test]
fn time_per_tag_counts_a_block_once_per_naming_tag() {
    let blocks = vec![parse("09:00 - 10:00 x @work/a @work/b")];
    let tags = time_per_tag(&blocks);
    assert_eq!(tags.len(), 1);
    assert_eq!(tags[0].minutes, 120);
    assert_eq!(tags[0].children.len(), 2);
    assert_eq!(tags[0].children[0].minutes, 120);
    assert!(tags[0].children[0].children.is_empty());
}

#[test]
fn time_per_tag_untagged_blocks_give_no_rows() {
    let blocks = vec![parse("09:00 - 10:00 nothing")];
    assert!(time_per_tag(&blocks).is_empty());
}

#[test]
fn time_per_tag_children_come_from_tags_under_the_row() {
    let blocks = vec![parse("09:00 - 10:00 a @work/x @home/y")];
    let tags = time_per_tag(&blocks);
    assert_eq!(
        tags,
        vec![
            TagTime {
                tag: "home".into(),
                minutes: 60,
                children: vec![TagTime { tag: "y".into(), minutes: 60, children: vec![] }],
            },
            TagTime {
                tag: "work".into(),
                minutes: 60,
                children: vec![TagTime { tag: "x".into(), minutes: 60, children: vec![] }],
            },
        ]
    );
}
