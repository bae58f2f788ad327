use hosts_manager::{hashmap_to_hosts, hosts_to_hashmap, ignore, remove_comments, HostMapping};

#[test]
fn test_remove_comments_with_inline_comment() {
    let test_string = "0.0.0.0 127.0.0.1 # loop";
    let expected = "0.0.0.0 127.0.0.1";
    assert_eq!(remove_comments(test_string), expected);
}

#[test]
fn test_remove_comments_with_no_comment_trims() {
    let test_string = "0.0.0.0 127.0.0.1     ";
    let expected = "0.0.0.0 127.0.0.1";
    assert_eq!(remove_comments(test_string), expected);
}

#[test]
fn test_hosts_to_hashmap_with_one_line_returns_one_entry() {
    let test_string = "0.0.0.0 127.0.0.1";

    let hashmap = hosts_to_hashmap(test_string);

    let values: Vec<String> = hashmap.get("0.0.0.0").unwrap();

    assert_eq!(values, vec!["127.0.0.1"]);
}

#[test]
fn test_hosts_to_hashmap_with_two_lines_returns_two_entries() {
    let test_string = "
        0.0.0.0 127.0.0.1
        0.0.0.0 192.168.1.1
        ";

    let hashmap = hosts_to_hashmap(test_string);

    let mut values: Vec<String> = hashmap.get("0.0.0.0").unwrap();
    values.sort();

    assert_eq!(values, vec!["127.0.0.1", "192.168.1.1"]);
}

#[test]
fn test_hosts_to_hashmap_with_multiple_destinations() {
    let test_string = "
        0.0.0.0 108.1.1.1
        127.0.0.1 192.168.1.1
        ";

    let hashmap = hosts_to_hashmap(test_string);

    let mut values: Vec<String> = hashmap.keys();
    values.sort();

    assert_eq!(values, vec!["0.0.0.0", "127.0.0.1"]);
}

#[test]
fn test_hosts_to_hashmap_with_multiple_destinations_and_comments() {
    let test_string = "
        0.0.0.0 108.1.1.1 # Dunno
        127.0.0.1 192.168.1.1 # Wowie
        ";

    let hashmap = hosts_to_hashmap(test_string);

    let mut values: Vec<String> = hashmap.keys();
    values.sort();

    assert_eq!(values, vec!["0.0.0.0", "127.0.0.1"]);
}

#[test]
fn test_hashmap_to_hosts_with_one_entry_returns_one_line() {
    let mut test_hashmap = HostMapping::new();

    test_hashmap.insert("0.0.0.0".to_string(), vec!["127.0.0.1".to_string()]);

    assert_eq!(hashmap_to_hosts(&test_hashmap, 1), "0.0.0.0 127.0.0.1\n")
}

#[test]
fn test_hashmap_to_hosts_with_two_entries_returns_two_lines_in_any_order() {
    let mut test_hashmap = HostMapping::new();

    test_hashmap.insert(
        "0.0.0.0".to_string(),
        vec!["127.0.0.1".to_string(), "128.0.0.1".to_string()],
    );

    // Hostname sets are unordered
    let hosts = hashmap_to_hosts(&test_hashmap, 1);

    let order1 = hosts == "0.0.0.0 127.0.0.1\n0.0.0.0 128.0.0.1\n";
    let order2 = hosts == "0.0.0.0 128.0.0.1\n0.0.0.0 127.0.0.1\n";

    assert!(order1 || order2);
}

#[test]
fn test_hashmap_to_hosts_with_compression_level_2_makes_two_columns() {
    let mut test_hashmap = HostMapping::new();

    test_hashmap.insert(
        "0.0.0.0".to_string(),
        vec!["127.0.0.1".to_string(), "128.0.0.1".to_string()],
    );

    let hosts = hashmap_to_hosts(&test_hashmap, 2);
    // Hostname sets are unordered
    let order1 = hosts == "0.0.0.0 127.0.0.1 128.0.0.1\n";
    let order2 = hosts == "0.0.0.0 128.0.0.1 127.0.0.1\n";

    assert!(order1 || order2);
}

#[test]
fn test_ignore_removes_common_values() {
    let mut test_hashmap = HostMapping::new();

    test_hashmap.insert(
        "0.0.0.0".to_string(),
        vec!["127.0.0.1".to_string(), "128.0.0.1".to_string()],
    );

    let mut ignore_hashmap = HostMapping::new();
    ignore_hashmap.insert("0.0.0.0".to_string(), vec!["128.0.0.1".to_string()]);

    ignore(&mut test_hashmap, &ignore_hashmap);

    let mut values: Vec<String> = test_hashmap.get("0.0.0.0").unwrap();
    values.sort();

    assert_eq!(values, vec!["127.0.0.1"]);
}
