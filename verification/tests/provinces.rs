use exercises::province_text::{
    count_batch, is_before, province_report, read_batches, read_item, read_links,
    read_quoted_name,
};
use exercises::provinces::{count_groups, DSU};

fn chars(s: &str) -> Vec<char> {
    s.chars().collect()
}

fn link(a: &str, b: &str) -> (Vec<char>, Vec<char>) {
    (chars(a), chars(b))
}

#[test]
fn forest_finds_roots_and_joins_groups() {
    let mut dsu = DSU::new();
    for n in 0..6 {
        dsu.add(n);
    }
    assert_eq!(dsu.get_isolated_part(), 6);
    dsu.union(4, 5);
    dsu.union(1, 2);
    assert_eq!(dsu.find(5), 4);
    assert_eq!(dsu.find(2), 1);
    assert_eq!(dsu.find(3), 3);
    dsu.union(5, 2);
    assert_eq!(dsu.find(5), 1);
    assert_eq!(dsu.find(4), 1);
    dsu.union(2, 4);
    assert_eq!(dsu.parent, vec![0, 1, 1, 3, 1, 1]);
    assert_eq!(dsu.get_isolated_part(), 3);
    dsu.union(0, 3);
    dsu.union(3, 5);
    assert_eq!(dsu.get_isolated_part(), 1);
    assert_eq!(dsu.parent, vec![0, 0, 0, 0, 0, 0]);
}

#[test]
fn groups_of_numbered_places() {
    assert_eq!(count_groups(0, &vec![]), 0);
    assert_eq!(count_groups(4, &vec![]), 4);
    assert_eq!(count_groups(4, &vec![(0, 0), (3, 3)]), 4);
    assert_eq!(count_groups(4, &vec![(0, 1), (2, 3)]), 2);
    assert_eq!(count_groups(4, &vec![(3, 0), (2, 3), (1, 2)]), 1);
    assert_eq!(count_groups(5, &vec![(4, 1), (1, 4), (2, 0)]), 3);
}

#[test]
fn names_between_quotes_and_in_brackets() {
    assert_eq!(read_quoted_name(&chars("\"1\": {")), Some(chars("1")));
    assert_eq!(read_quoted_name(&chars("\"open")), Some(chars("open")));
    assert_eq!(read_quoted_name(&chars("{")), None);
    assert_eq!(read_item(&chars("\"A\": [\"B\"")), chars("B"));
    assert_eq!(read_item(&chars(" \"C\"]")), chars("C"));
    assert_eq!(read_item(&chars("  plain  ")), chars("plain"));
    assert_eq!(read_item(&chars("")), chars(""));
    assert_eq!(
        read_links(&chars("\"A\": [\"B\", \"C\"],")),
        Some(vec![link("A", "A"), link("A", "B"), link("A", "C")])
    );
    assert_eq!(read_links(&chars("\"W\": []")), Some(vec![link("W", "W")]));
    assert_eq!(read_links(&chars("[1, 2]")), None);
}

#[test]
fn order_of_the_dictionary() {
    assert!(is_before(&chars("1"), &chars("2")));
    assert!(is_before(&chars("10"), &chars("2")));
    assert!(is_before(&chars(""), &chars("a")));
    assert!(is_before(&chars("ab"), &chars("abc")));
    assert!(!is_before(&chars("abc"), &chars("ab")));
    assert!(!is_before(&chars("a"), &chars("a")));
    assert!(!is_before(&chars(""), &chars("")));
}

#[test]
fn provinces_of_one_batch() {
    assert_eq!(count_batch(&vec![]), 0);
    assert_eq!(count_batch(&vec![link("A", "A")]), 1);
    assert_eq!(
        count_batch(&vec![link("A", "A"), link("A", "B"), link("D", "D"), link("D", "E")]),
        2
    );
    assert_eq!(
        count_batch(&vec![link("A", "B"), link("C", "D"), link("E", "F"), link("F", "A"), link("D", "B")]),
        1
    );
}

const DISTRICTS: &str = "{
  \"2\": {
    \"X\": [\"Y\"],
    \"Y\": [\"Z\"],
    \"W\": []
  },
  \"1\": {
    \"A\": [\"B\", \"C\"],
    \"D\": [\"E\"],
    \"A\": [\"F\"]
  },
  \"10\": {
    \"P\": [\"Q\", \"R\"],
    \"S\": [\"R\"]
  }
}
";

#[test]
fn provinces_of_a_text() {
    assert_eq!(province_report(DISTRICTS), Some("2,1,2".to_string()));
    let batches = read_batches(DISTRICTS).unwrap();
    let ids: Vec<String> = batches.iter().map(|b| b.id.iter().collect()).collect();
    assert_eq!(ids, vec!["1", "10", "2"]);
    assert_eq!(batches[0].links.len(), 3 + 2 + 2);
}

#[test]
fn provinces_of_texts_at_the_edges() {
    assert_eq!(province_report(""), Some("".to_string()));
    assert_eq!(province_report("{\n}\n"), Some("".to_string()));
    // A batch that no line ends is left out.
    assert_eq!(province_report("\"1\": {\n\"A\": [\"B\"]\n"), Some("".to_string()));
    assert_eq!(province_report("\"1\": {\n\"A\": [\"B\"]\n}"), Some("1".to_string()));
    // Of two batches of one name the last counts.
    assert_eq!(
        province_report("\"1\": {\n\"A\": []\n\"B\": []\n}\n\"1\": {\n\"A\": [\"B\"]\n}\n"),
        Some("1".to_string())
    );
    // A line with a bracket needs a name, and a batch a heading.
    assert_eq!(province_report("\"A\": [\"B\"]\n}\n"), None);
    assert_eq!(province_report("{\n\"A\": [\"B\"]\n}\n"), None);
    assert_eq!(province_report("\"1\": {\n[B]\n}\n"), None);
}
