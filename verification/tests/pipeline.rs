use hosts_manager::{hashmap_to_hosts, hosts_to_hashmap, ignore, remove_comments, HostMapping};

fn sorted_hosts(m: &HostMapping, key: &str) -> Vec<String> {
    let mut v = m.get(key).unwrap();
    v.sort();
    v
}

#[test]
fn normalizing_twice_changes_nothing() {
    let inputs = vec![
        "0.0.0.0 127.0.0.1 # loop",
        "   # just a comment",
        "  0.0.0.0 a  b  ",
        "",
        "plain",
        "## double",
    ];
    for s in inputs {
        let once = remove_comments(s);
        let twice = remove_comments(once.as_str());
        assert_eq!(twice, once);
    }
}

#[test]
fn aggregating_one_line_yields_one_pair() {
    let m = hosts_to_hashmap("0.0.0.0 127.0.0.1");
    assert_eq!(m.keys(), vec!["0.0.0.0"]);
    assert_eq!(m.get("0.0.0.0").unwrap(), vec!["127.0.0.1"]);
    assert!(m.get("127.0.0.1").is_none());
}

#[test]
fn aggregating_two_lines_unions_their_hostnames() {
    let m = hosts_to_hashmap("0.0.0.0 127.0.0.1\n0.0.0.0 192.168.1.1");
    assert_eq!(m.keys(), vec!["0.0.0.0"]);
    assert_eq!(
        sorted_hosts(&m, "0.0.0.0"),
        vec!["127.0.0.1", "192.168.1.1"]
    );
}

#[test]
fn aggregating_concatenated_texts_merges_key_by_key() {
    let t1 = "0.0.0.0 a\n1.1.1.1 b";
    let t2 = "0.0.0.0 c\n2.2.2.2 d";
    let joined = format!("{}\n{}", t1, t2);
    let m = hosts_to_hashmap(joined.as_str());
    let mut keys = m.keys();
    keys.sort();
    assert_eq!(keys, vec!["0.0.0.0", "1.1.1.1", "2.2.2.2"]);
    assert_eq!(sorted_hosts(&m, "0.0.0.0"), vec!["a", "c"]);
    assert_eq!(sorted_hosts(&m, "1.1.1.1"), vec!["b"]);
    assert_eq!(sorted_hosts(&m, "2.2.2.2"), vec!["d"]);
}

#[test]
fn comment_only_line_contributes_no_entries() {
    let m = hosts_to_hashmap("   # just a comment");
    assert_eq!(m.len(), 0);
    assert_eq!(m.keys(), Vec::<String>::new());
}

#[test]
fn destination_without_hostnames_keeps_an_empty_set() {
    let m = hosts_to_hashmap("0.0.0.0");
    assert_eq!(m.keys(), vec!["0.0.0.0"]);
    assert_eq!(m.get("0.0.0.0").unwrap(), Vec::<String>::new());
}

#[test]
fn consecutive_spaces_keep_empty_tokens_as_hostnames() {
    let m = hosts_to_hashmap("0.0.0.0  a");
    let hosts = sorted_hosts(&m, "0.0.0.0");
    assert_eq!(hosts, vec!["", "a"]);
}

#[test]
fn repeated_hostnames_collapse_to_one() {
    let m = hosts_to_hashmap("0.0.0.0 a\n0.0.0.0 a a");
    assert_eq!(m.get("0.0.0.0").unwrap(), vec!["a"]);
}

#[test]
fn empty_hostname_set_is_not_serialized() {
    let mut m = HostMapping::new();
    m.insert("0.0.0.0".to_string(), Vec::new());
    assert_eq!(hashmap_to_hosts(&m, 9), "");
}

#[test]
fn serializing_three_hostnames_at_level_2_makes_two_lines() {
    let mut m = HostMapping::new();
    m.insert(
        "0.0.0.0".to_string(),
        vec!["a".to_string(), "b".to_string(), "c".to_string()],
    );
    let text = hashmap_to_hosts(&m, 2);
    let lines: Vec<&str> = text.split('\n').filter(|l| !l.is_empty()).collect();
    assert_eq!(lines.len(), 2);
    let first_cols = lines[0].split(' ').count();
    let second_cols = lines[1].split(' ').count();
    assert_eq!(first_cols, 3); // destination plus two hostnames
    assert_eq!(second_cols, 2); // destination plus the final hostname
    for line in &lines {
        assert!(line.starts_with("0.0.0.0 "));
    }
}

#[test]
fn serialized_text_aggregates_back_to_the_same_mapping() {
    let mut m = HostMapping::new();
    m.insert(
        "0.0.0.0".to_string(),
        vec!["a".to_string(), "b".to_string(), "c".to_string()],
    );
    m.insert("::1".to_string(), vec!["localhost".to_string()]);
    for level in 1..5u16 {
        let text = hashmap_to_hosts(&m, level);
        let back = hosts_to_hashmap(text.as_str());
        let mut keys = back.keys();
        keys.sort();
        assert_eq!(keys, vec!["0.0.0.0", "::1"]);
        assert_eq!(sorted_hosts(&back, "0.0.0.0"), vec!["a", "b", "c"]);
        assert_eq!(sorted_hosts(&back, "::1"), vec!["localhost"]);
    }
}

#[test]
fn ignore_subtracts_only_under_the_same_destination() {
    let mut m = hosts_to_hashmap("0.0.0.0 a b\n1.1.1.1 a");
    let ig = hosts_to_hashmap("0.0.0.0 a\n2.2.2.2 b");
    ignore(&mut m, &ig);
    let mut keys = m.keys();
    keys.sort();
    // keys of the ignore mapping are never added
    assert_eq!(keys, vec!["0.0.0.0", "1.1.1.1"]);
    assert_eq!(sorted_hosts(&m, "0.0.0.0"), vec!["b"]);
    // hostnames are only removed under the destination that lists them
    assert_eq!(sorted_hosts(&m, "1.1.1.1"), vec!["a"]);
}

#[test]
fn ignore_keeps_a_destination_whose_set_becomes_empty() {
    let mut m = hosts_to_hashmap("0.0.0.0 a");
    let ig = hosts_to_hashmap("0.0.0.0 a");
    ignore(&mut m, &ig);
    assert_eq!(m.keys(), vec!["0.0.0.0"]);
    assert_eq!(m.get("0.0.0.0").unwrap(), Vec::<String>::new());
}

#[test]
fn ignore_twice_is_the_same_as_ignore_once() {
    let mut m = hosts_to_hashmap("0.0.0.0 a b c\n1.1.1.1 d");
    let ig = hosts_to_hashmap("0.0.0.0 b\n1.1.1.1 d e");
    ignore(&mut m, &ig);
    let first_keys = m.keys();
    let first_hosts = sorted_hosts(&m, "0.0.0.0");
    ignore(&mut m, &ig);
    assert_eq!(m.keys(), first_keys);
    assert_eq!(sorted_hosts(&m, "0.0.0.0"), first_hosts);
    assert_eq!(first_hosts, vec!["a", "c"]);
    assert_eq!(sorted_hosts(&m, "1.1.1.1"), Vec::<String>::new());
}
