use cardbe::labels::{collect_labels, ordered_labels};
use cardbe::models::{Column, ColumnSort, StoredData, Task};

fn labelled(labels: &[&str]) -> Task {
    Task {
        labels: labels.iter().map(|l| l.to_string()).collect(),
        ..Task::default()
    }
}

fn strings(v: &[&str]) -> Vec<String> {
    v.iter().map(|s| s.to_string()).collect()
}

#[test]
fn labels_in_use_are_sorted_and_unique() {
    let mut data = StoredData::default();
    data.columns.push(Column {
        id: 1,
        name: "A".into(),
        color: String::new(),
        sort_order: ColumnSort::Custom,
        tasks: vec![labelled(&["work", "home"]), labelled(&["Work", "home", "ärger"])],
    });
    assert_eq!(collect_labels(&data), strings(&["Work", "home", "work", "ärger"]));
}

#[test]
fn recent_labels_come_first_then_the_others_in_order() {
    let recency = strings(&["c", "gone", "a"]);
    let labels = strings(&["a", "b", "c", "d"]);
    assert_eq!(ordered_labels(&recency, &labels), strings(&["c", "a", "b", "d"]));
}
