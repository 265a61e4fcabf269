use path_trie::InsertError;
use path_trie::PathTrie;
use path_trie::TriePath;

/// Builds a path from its textual form: a leading `/` is the root
/// component, and the rest splits on `/`.
fn tp(s: &str) -> TriePath {
    let mut segs: Vec<String> = Vec::new();
    let mut rest = s;
    if rest.starts_with('/') {
        segs.push("/".to_string());
        rest = &rest[1..];
    }
    for part in rest.split('/') {
        if !part.is_empty() {
            segs.push(part.to_string());
        }
    }
    TriePath::from_segments(segs)
}

fn collect(trie: &PathTrie) -> Vec<TriePath> {
    let mut out: Vec<TriePath> = Vec::new();
    let mut it = trie.iter();
    while let Some(p) = it.next() {
        out.push(p);
    }
    out
}

#[test]
fn test_positive_empty() {
    let trie = PathTrie::new();

    let elements: Vec<TriePath> = collect(&trie);
    assert!(elements.is_empty());
}

#[test]
fn test_positive_insert_root_absolute() -> Result<(), InsertError> {
    let path = tp("/");

    let mut trie = PathTrie::new();
    trie.insert(&path)?;

    let elements: Vec<TriePath> = collect(&trie);
    assert_eq!(vec![path], elements);

    Ok(())
}

#[test]
fn test_positive_insert_root_here() -> Result<(), InsertError> {
    let path = tp(".");

    let mut trie = PathTrie::new();
    trie.insert(&path)?;

    let elements: Vec<TriePath> = collect(&trie);
    assert_eq!(vec![path], elements);

    Ok(())
}

#[test]
fn test_positive_insert_root_parent() -> Result<(), InsertError> {
    let path = tp("..");

    let mut trie = PathTrie::new();
    trie.insert(&path)?;

    let elements: Vec<TriePath> = collect(&trie);
    assert_eq!(vec![path], elements);

    Ok(())
}

#[test]
fn test_positive_insert_root_relative() -> Result<(), InsertError> {
    let path = tp("relative");

    let mut trie = PathTrie::new();
    trie.insert(&path)?;

    let elements: Vec<TriePath> = collect(&trie);
    assert_eq!(vec![path], elements);

    Ok(())
}

fn root_path_values() -> Vec<TriePath> {
    vec![tp("/"), tp("."), tp(".."), tp("relative1"), tp("relative2")]
}

#[test]
fn test_positive_insert_roots_2() -> Result<(), InsertError> {
    let paths = root_path_values();

    for a in 0..paths.len() {
        for b in 0..paths.len() {
            if b == a {
                continue;
            }
            let permutation = vec![paths[a].clone(), paths[b].clone()];

            let mut trie = PathTrie::new();
            trie.insert(&permutation[0])?;
            trie.insert(&permutation[1])?;

            let elements: Vec<TriePath> = collect(&trie);
            assert_eq!(permutation, elements);
        }
    }

    Ok(())
}

#[test]
fn test_positive_insert_roots_3() -> Result<(), InsertError> {
    let paths = root_path_values();

    for a in 0..paths.len() {
        for b in 0..paths.len() {
            for c in 0..paths.len() {
                if b == a || c == a || c == b {
                    continue;
                }
                let permutation = vec![paths[a].clone(), paths[b].clone(), paths[c].clone()];

                let mut trie = PathTrie::new();
                trie.insert(&permutation[0])?;
                trie.insert(&permutation[1])?;
                trie.insert(&permutation[2])?;

                let elements: Vec<TriePath> = collect(&trie);
                assert_eq!(permutation, elements);
            }
        }
    }

    Ok(())
}

#[test]
fn test_positive_insert_roots_4() -> Result<(), InsertError> {
    let paths = root_path_values();

    for a in 0..paths.len() {
        for b in 0..paths.len() {
            for c in 0..paths.len() {
                for d in 0..paths.len() {
                    if b == a || c == a || c == b || d == a || d == b || d == c {
                        continue;
                    }
                    let permutation = vec![
                        paths[a].clone(),
                        paths[b].clone(),
                        paths[c].clone(),
                        paths[d].clone(),
                    ];

                    let mut trie = PathTrie::new();
                    trie.insert(&permutation[0])?;
                    trie.insert(&permutation[1])?;
                    trie.insert(&permutation[2])?;
                    trie.insert(&permutation[3])?;

                    let elements: Vec<TriePath> = collect(&trie);
                    assert_eq!(permutation, elements);
                }
            }
        }
    }

    Ok(())
}

#[test]
fn test_positive_insert_roots_5() -> Result<(), InsertError> {
    let paths = root_path_values();

    for a in 0..paths.len() {
        for b in 0..paths.len() {
            for c in 0..paths.len() {
                for d in 0..paths.len() {
                    for e in 0..paths.len() {
                        if b == a || c == a || c == b || d == a || d == b || d == c || e == a
                            || e == b || e == c || e == d
                        {
                            continue;
                        }
                        let permutation = vec![
                            paths[a].clone(),
                            paths[b].clone(),
                            paths[c].clone(),
                            paths[d].clone(),
                            paths[e].clone(),
                        ];

                        let mut trie = PathTrie::new();
                        trie.insert(&permutation[0])?;
                        trie.insert(&permutation[1])?;
                        trie.insert(&permutation[2])?;
                        trie.insert(&permutation[3])?;
                        trie.insert(&permutation[4])?;

                        let elements: Vec<TriePath> = collect(&trie);
                        assert_eq!(permutation, elements);
                    }
                }
            }
        }
    }

    Ok(())
}

#[test]
fn test_positive_insert_root_children() -> Result<(), InsertError> {
    let paths = (
        tp("/"),
        tp("/child1"),
        tp("/child1/child2"),
        tp("/child1/child2/child3"),
        tp("/child1/child4"),
        tp("/child1/child4/child5"),
    );

    let mut trie = PathTrie::new();

    trie.insert(&paths.2)?;
    let expected = vec![paths.2.clone()];
    let actual: Vec<TriePath> = collect(&trie);
    assert_eq!(expected, actual);

    trie.insert(&paths.0)?;
    let expected = vec![paths.0.clone(), paths.2.clone()];
    let actual: Vec<TriePath> = collect(&trie);
    assert_eq!(expected, actual);

    trie.insert(&paths.4)?;
    let expected = vec![paths.0.clone(), paths.2.clone(), paths.4.clone()];
    let actual: Vec<TriePath> = collect(&trie);
    assert_eq!(expected, actual);

    trie.insert(&paths.5)?;
    let expected = vec![
        paths.0.clone(),
        paths.2.clone(),
        paths.4.clone(),
        paths.5.clone(),
    ];
    let actual: Vec<TriePath> = collect(&trie);
    assert_eq!(expected, actual);

    trie.insert(&paths.3)?;
    let expected = vec![
        paths.0.clone(),
        paths.2.clone(),
        paths.3.clone(),
        paths.4.clone(),
        paths.5.clone(),
    ];
    let actual: Vec<TriePath> = collect(&trie);
    assert_eq!(expected, actual);

    trie.insert(&paths.1)?;
    let expected = vec![
        paths.0.clone(),
        paths.1.clone(),
        paths.2.clone(),
        paths.3.clone(),
        paths.4.clone(),
        paths.5.clone(),
    ];
    let actual: Vec<TriePath> = collect(&trie);
    assert_eq!(expected, actual);

    Ok(())
}

#[test]
fn test_positive_insert_here_children() -> Result<(), InsertError> {
    let paths = (
        tp("."),
        tp("./child1"),
        tp("./child1/child2"),
        tp("./child1/child2/child3"),
        tp("./child1/child4"),
        tp("./child1/child4/child5"),
    );

    let mut trie = PathTrie::new();

    trie.insert(&paths.2)?;
    let expected = vec![paths.2.clone()];
    let actual: Vec<TriePath> = collect(&trie);
    assert_eq!(expected, actual);

    trie.insert(&paths.0)?;
    let expected = vec![paths.0.clone(), paths.2.clone()];
    let actual: Vec<TriePath> = collect(&trie);
    assert_eq!(expected, actual);

    trie.insert(&paths.4)?;
    let expected = vec![paths.0.clone(), paths.2.clone(), paths.4.clone()];
    let actual: Vec<TriePath> = collect(&trie);
    assert_eq!(expected, actual);

    trie.insert(&paths.5)?;
    let expected = vec![
        paths.0.clone(),
        paths.2.clone(),
        paths.4.clone(),
        paths.5.clone(),
    ];
    let actual: Vec<TriePath> = collect(&trie);
    assert_eq!(expected, actual);

    trie.insert(&paths.3)?;
    let expected = vec![
        paths.0.clone(),
        paths.2.clone(),
        paths.3.clone(),
        paths.4.clone(),
        paths.5.clone(),
    ];
    let actual: Vec<TriePath> = collect(&trie);
    assert_eq!(expected, actual);

    trie.insert(&paths.1)?;
    let expected = vec![
        paths.0.clone(),
        paths.1.clone(),
        paths.2.clone(),
        paths.3.clone(),
        paths.4.clone(),
        paths.5.clone(),
    ];
    let actual: Vec<TriePath> = collect(&trie);
    assert_eq!(expected, actual);

    Ok(())
}

#[test]
fn test_positive_insert_parent_children() -> Result<(), InsertError> {
    let paths = (
        tp(".."),
        tp("../child1"),
        tp("../child1/child2"),
        tp("../child1/child2/child3"),
        tp("../child1/child4"),
        tp("../child1/child4/child5"),
    );

    let mut trie = PathTrie::new();

    trie.insert(&paths.2)?;
    let expected = vec![paths.2.clone()];
    let actual: Vec<TriePath> = collect(&trie);
    assert_eq!(expected, actual);

    trie.insert(&paths.0)?;
    let expected = vec![paths.0.clone(), paths.2.clone()];
    let actual: Vec<TriePath> = collect(&trie);
    assert_eq!(expected, actual);

    trie.insert(&paths.4)?;
    let expected = vec![paths.0.clone(), paths.2.clone(), paths.4.clone()];
    let actual: Vec<TriePath> = collect(&trie);
    assert_eq!(expected, actual);

    trie.insert(&paths.5)?;
    let expected = vec![
        paths.0.clone(),
        paths.2.clone(),
        paths.4.clone(),
        paths.5.clone(),
    ];
    let actual: Vec<TriePath> = collect(&trie);
    assert_eq!(expected, actual);

    trie.insert(&paths.3)?;
    let expected = vec![
        paths.0.clone(),
        paths.2.clone(),
        paths.3.clone(),
        paths.4.clone(),
        paths.5.clone(),
    ];
    let actual: Vec<TriePath> = collect(&trie);
    assert_eq!(expected, actual);

    trie.insert(&paths.1)?;
    let expected = vec![
        paths.0.clone(),
        paths.1.clone(),
        paths.2.clone(),
        paths.3.clone(),
        paths.4.clone(),
        paths.5.clone(),
    ];
    let actual: Vec<TriePath> = collect(&trie);
    assert_eq!(expected, actual);

    Ok(())
}

#[test]
fn test_positive_insert_relative_children() -> Result<(), InsertError> {
    let paths = (
        tp("relative"),
        tp("relative/child1"),
        tp("relative/child1/child2"),
        tp("relative/child1/child2/child3"),
        tp("relative/child1/child4"),
        tp("relative/child1/child4/child5"),
    );

    let mut trie = PathTrie::new();

    trie.insert(&paths.2)?;
    let expected = vec![paths.2.clone()];
    let actual: Vec<TriePath> = collect(&trie);
    assert_eq!(expected, actual);

    trie.insert(&paths.0)?;
    let expected = vec![paths.0.clone(), paths.2.clone()];
    let actual: Vec<TriePath> = collect(&trie);
    assert_eq!(expected, actual);

    trie.insert(&paths.4)?;
    let expected = vec![paths.0.clone(), paths.2.clone(), paths.4.clone()];
    let actual: Vec<TriePath> = collect(&trie);
    assert_eq!(expected, actual);

    trie.insert(&paths.5)?;
    let expected = vec![
        paths.0.clone(),
        paths.2.clone(),
        paths.4.clone(),
        paths.5.clone(),
    ];
    let actual: Vec<TriePath> = collect(&trie);
    assert_eq!(expected, actual);

    trie.insert(&paths.3)?;
    let expected = vec![
        paths.0.clone(),
        paths.2.clone(),
        paths.3.clone(),
        paths.4.clone(),
        paths.5.clone(),
    ];
    let actual: Vec<TriePath> = collect(&trie);
    assert_eq!(expected, actual);

    trie.insert(&paths.1)?;
    let expected = vec![
        paths.0.clone(),
        paths.1.clone(),
        paths.2.clone(),
        paths.3.clone(),
        paths.4.clone(),
        paths.5.clone(),
    ];
    let actual: Vec<TriePath> = collect(&trie);
    assert_eq!(expected, actual);

    Ok(())
}

#[test]
fn test_empty_path_rejected() -> Result<(), InsertError> {
    let mut trie = PathTrie::new();
    assert_eq!(Err(InsertError::EmptyPath), trie.insert(&TriePath::empty()));
    assert!(collect(&trie).is_empty());

    trie.insert(&tp("a/b"))?;
    let before = collect(&trie);
    assert_eq!(Err(InsertError::EmptyPath), trie.insert(&TriePath::empty()));
    let after = collect(&trie);
    assert_eq!(before, after);

    Ok(())
}

#[test]
fn test_duplicate_rejected() -> Result<(), InsertError> {
    let mut trie = PathTrie::new();
    trie.insert(&tp("/a/b"))?;
    assert_eq!(Err(InsertError::DuplicatePath), trie.insert(&tp("/a/b")));

    Ok(())
}

#[test]
fn test_duplicate_rejected_after_other_inserts() -> Result<(), InsertError> {
    let mut trie = PathTrie::new();
    trie.insert(&tp("/a/b"))?;
    trie.insert(&tp("/a"))?;
    trie.insert(&tp("/a/c"))?;
    trie.insert(&tp("other"))?;
    assert_eq!(Err(InsertError::DuplicatePath), trie.insert(&tp("/a/b")));
    assert_eq!(Err(InsertError::DuplicatePath), trie.insert(&tp("/a")));

    Ok(())
}

#[test]
fn test_prefix_compression_transparency() -> Result<(), InsertError> {
    let mut trie = PathTrie::new();

    trie.insert(&tp("/a/b/c"))?;
    assert_eq!(vec![tp("/a/b/c")], collect(&trie));

    trie.insert(&tp("/a"))?;
    assert_eq!(vec![tp("/a"), tp("/a/b/c")], collect(&trie));

    trie.insert(&tp("/a/b/x"))?;
    assert_eq!(vec![tp("/a"), tp("/a/b/c"), tp("/a/b/x")], collect(&trie));

    Ok(())
}

#[test]
fn test_component_boundary_no_compression() -> Result<(), InsertError> {
    let mut trie = PathTrie::new();
    trie.insert(&tp("/child1"))?;
    trie.insert(&tp("/child12"))?;

    // `child1` is not a component-wise prefix of `child12`: both paths
    // stay independent, neither nested below the other.
    assert_eq!(vec![tp("/child1"), tp("/child12")], collect(&trie));

    Ok(())
}

#[test]
fn test_independent_top_level_forms() -> Result<(), InsertError> {
    let mut trie = PathTrie::new();
    trie.insert(&tp("/"))?;
    trie.insert(&tp("."))?;
    trie.insert(&tp(".."))?;
    trie.insert(&tp("some/relative"))?;

    assert_eq!(
        vec![tp("/"), tp("."), tp(".."), tp("some/relative")],
        collect(&trie)
    );

    Ok(())
}

#[test]
fn test_round_trip_set() -> Result<(), InsertError> {
    let paths = vec![
        tp("x/y/z"),
        tp("x"),
        tp("q"),
        tp("/r/s"),
        tp("x/y"),
        tp("../w"),
    ];

    let mut trie = PathTrie::new();
    for p in &paths {
        trie.insert(p)?;
    }

    let actual = collect(&trie);
    assert_eq!(paths.len(), actual.len());
    for p in &paths {
        assert_eq!(1, actual.iter().filter(|q| *q == p).count());
    }

    Ok(())
}

#[test]
fn test_ancestor_precedes_descendant() -> Result<(), InsertError> {
    let paths = vec![tp("x/y/z"), tp("/r/s"), tp("x"), tp("/r"), tp("x/y")];

    let mut trie = PathTrie::new();
    for p in &paths {
        trie.insert(p)?;
    }

    let actual = collect(&trie);
    let index_of = |p: &TriePath| actual.iter().position(|q| q == p).unwrap();
    assert!(index_of(&tp("x")) < index_of(&tp("x/y")));
    assert!(index_of(&tp("x/y")) < index_of(&tp("x/y/z")));
    assert!(index_of(&tp("/r")) < index_of(&tp("/r/s")));

    Ok(())
}

#[test]
fn test_path_segments() {
    let p = tp("/a/b");
    let segments: Vec<String> = p.segments().clone();
    assert_eq!(
        vec!["/".to_string(), "a".to_string(), "b".to_string()],
        segments
    );
    assert_eq!(3, p.len());
    assert!(!p.is_empty());
    assert!(TriePath::empty().is_empty());
}

#[test]
fn test_default_is_empty() {
    let trie = PathTrie::default();
    assert!(collect(&trie).is_empty());
}
