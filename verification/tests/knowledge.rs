use recognize_rs::knowledge::{
    build_index, is_child, vol_short, Chapter, Issue, KpIndex, KpNode, KpTree, Level, Meta, Point,
    Section, Volume,
};

fn s(x: &str) -> String {
    x.to_string()
}

fn point(id: &str, name: &str) -> Point {
    Point { id: s(id), name: s(name) }
}

fn tree(volumes: Vec<Volume>) -> KpTree {
    KpTree { meta: Meta { version: s("v0"), status: s("draft") }, volumes }
}

fn sample_tree() -> KpTree {
    tree(vec![Volume {
        id: s("8A"),
        grade: s("八年级"),
        volume: s("上册"),
        chapters: vec![Chapter {
            id: s("8A.2"),
            name: s("特殊三角形"),
            sections: vec![
                Section {
                    id: s("8A.2.7"),
                    name: s("探索勾股定理"),
                    points: vec![point("8A.2.7.1", "勾股定理"), point("8A.2.7.2", "勾股定理的逆定理")],
                },
                Section { id: s("8A.2.8"), name: s("直角三角形全等的判定"), points: vec![] },
            ],
        }],
    }])
}

#[test]
fn vol_short_known_names() {
    assert_eq!(vol_short("七年级", "上册"), "七上");
    assert_eq!(vol_short("八年级", "下册"), "八下");
    assert_eq!(vol_short("九年级", "上册"), "九上");
}

#[test]
fn vol_short_unknown_names_kept() {
    assert_eq!(vol_short("高一", "全册"), "高一全册");
    assert_eq!(vol_short("七年级", "全册"), "七全册");
}

#[test]
fn is_child_requires_dot_after_prefix() {
    assert!(is_child("8A.2", "8A"));
    assert!(is_child("8A.2.7.1", "8A.2.7"));
    assert!(!is_child("8A2", "8A"));
    assert!(!is_child("8A", "8A"));
    assert!(!is_child("8B.2", "8A"));
    assert!(!is_child("8A.", "8A.2"));
}

#[test]
fn consistent_tree_has_no_issues() {
    let loaded = build_index(&sample_tree());
    assert!(loaded.issues.is_empty());
    assert!(loaded.id_index.contains_key("8A"));
    assert!(loaded.id_index.contains_key("8A.2.8"));
    assert!(!loaded.id_index.contains_key("8A.3"));
    let n = loaded.id_index.get("8A.2.7.2").unwrap();
    assert_eq!(n.path, "八上 > 特殊三角形 > 探索勾股定理 > 勾股定理的逆定理");
    assert_eq!(n.name, "勾股定理的逆定理");
    assert_eq!(n.level, Level::Point);
    let v = loaded.id_index.get("8A").unwrap();
    assert_eq!(v.name, "八上");
    assert_eq!(v.path, "八上");
    assert_eq!(loaded.id_index.get("8A.2").unwrap().path, "八上 > 特殊三角形");
}

#[test]
fn points_listed_in_order_with_paths() {
    let loaded = build_index(&sample_tree());
    assert_eq!(loaded.points.len(), 2);
    assert_eq!(loaded.points[0].id, "8A.2.7.1");
    assert_eq!(loaded.points[0].path, "八上 > 特殊三角形 > 探索勾股定理 > 勾股定理");
    assert_eq!(loaded.points[1].id, "8A.2.7.2");
    assert_eq!(loaded.points[1].name, "勾股定理的逆定理");
}

#[test]
fn level_counts() {
    let loaded = build_index(&sample_tree());
    assert_eq!(loaded.id_index.count_level(Level::Volume), 1);
    assert_eq!(loaded.id_index.count_level(Level::Chapter), 1);
    assert_eq!(loaded.id_index.count_level(Level::Section), 2);
    assert_eq!(loaded.id_index.count_level(Level::Point), 2);
}

#[test]
fn duplicate_and_misplaced_ids_reported() {
    let t = tree(vec![Volume {
        id: s("7A"),
        grade: s("七年级"),
        volume: s("上册"),
        chapters: vec![Chapter {
            id: s("7B.1"),
            name: s("有理数"),
            sections: vec![Section {
                id: s("7B.1.1"),
                name: s("正数和负数"),
                points: vec![point("7B.1.1.1", "正数"), point("7B.1.1.1", "负数"), point("7B.1.2.1", "零")],
            }],
        }],
    }]);
    let loaded = build_index(&t);
    let msgs: Vec<String> = loaded.issues.iter().map(|i| i.message()).collect();
    assert_eq!(
        msgs,
        vec![
            "章 id 前缀不符：7B.1 不在册 7A 下".to_string(),
            "重复 id：7B.1.1.1".to_string(),
            "点 id 前缀不符：7B.1.2.1 不在节 7B.1.1 下".to_string(),
        ]
    );
    match &loaded.issues[1] {
        Issue::DuplicateId { id } => assert_eq!(id, "7B.1.1.1"),
        _ => panic!("expected a duplicate id"),
    }
    // The later occurrence of a repeated id is the one the index keeps.
    assert_eq!(loaded.id_index.get("7B.1.1.1").unwrap().name, "负数");
    // Both occurrences are listed as points.
    assert_eq!(loaded.points.len(), 3);
    assert_eq!(loaded.id_index.count_level(Level::Point), 2);
}

#[test]
fn section_outside_chapter_reported() {
    let t = tree(vec![Volume {
        id: s("9A"),
        grade: s("九年级"),
        volume: s("下册"),
        chapters: vec![Chapter {
            id: s("9A.1"),
            name: s("二次函数"),
            sections: vec![Section { id: s("9A.2.1"), name: s("图像"), points: vec![] }],
        }],
    }]);
    let loaded = build_index(&t);
    assert_eq!(loaded.issues.len(), 1);
    assert_eq!(loaded.issues[0].message(), "节 id 前缀不符：9A.2.1 不在章 9A.1 下");
}

#[test]
fn empty_tree_loads_empty() {
    let loaded = build_index(&tree(vec![]));
    assert!(loaded.issues.is_empty());
    assert!(loaded.points.is_empty());
    assert_eq!(loaded.id_index.count_level(Level::Volume), 0);
}

#[test]
fn index_insert_replaces_and_reports() {
    let mut idx = KpIndex::new();
    let node = |n: &str| KpNode { name: s(n), path: s(n), level: Level::Point };
    assert!(!idx.insert(s("a"), node("first")));
    assert!(idx.insert(s("a"), node("second")));
    assert!(!idx.insert(s("b"), node("third")));
    assert_eq!(idx.get("a").unwrap().name, "second");
    assert_eq!(idx.get("b").unwrap().name, "third");
    assert!(idx.get("c").is_none());
    assert_eq!(idx.count_level(Level::Point), 2);
}

#[test]
fn level_labels() {
    assert_eq!(Level::Volume.label(), "册");
    assert_eq!(Level::Chapter.label(), "章");
    assert_eq!(Level::Section.label(), "节");
    assert_eq!(Level::Point.label(), "点");
    assert_eq!(Level::Point.parent(), Level::Section);
}

#[test]
fn issue_and_index_counts() {
    // Two repeated occurrences of one id, one more of another, and two
    // ids outside their parents.
    let t = tree(vec![Volume {
        id: s("7A"),
        grade: s("七年级"),
        volume: s("上册"),
        chapters: vec![Chapter {
            id: s("7A.1"),
            name: s("有理数"),
            sections: vec![Section {
                id: s("7A.1.1"),
                name: s("正负数"),
                points: vec![
                    point("7A.1.1.1", "a"),
                    point("7A.1.1.1", "b"),
                    point("7A.1.1.1", "c"),
                    point("7A.1", "d"),
                    point("7B.1.1.2", "e"),
                ],
            }],
        }],
    }]);
    let loaded = build_index(&t);
    let dups = loaded.issues.iter().filter(|i| matches!(i, Issue::DuplicateId { .. })).count();
    assert_eq!(dups, 3);
    assert_eq!(loaded.issues.len(), 3 + 2);
    let size = [Level::Volume, Level::Chapter, Level::Section, Level::Point]
        .iter()
        .map(|l| loaded.id_index.count_level(*l))
        .sum::<usize>();
    assert_eq!(size + dups, 8);
}
