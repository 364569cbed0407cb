use query_range::reassembly::{concat_runs, merge_runs, TaggedRun};

fn run(text: &str, start: usize) -> TaggedRun {
    TaggedRun { text: String::from(text), start }
}

fn shown(runs: &Vec<TaggedRun>) -> Vec<(String, usize)> {
    runs.iter().map(|run| (run.text.clone(), run.start)).collect()
}

#[test]
fn merge_orders_runs_by_their_start() {
    let first = vec![run("a", 0), run("c", 5), run("e", 9)];
    let second = vec![run("b", 2), run("d", 7)];
    let all = merge_runs(&first, &second);
    assert_eq!(
        shown(&all),
        vec![
            (String::from("a"), 0),
            (String::from("b"), 2),
            (String::from("c"), 5),
            (String::from("d"), 7),
            (String::from("e"), 9),
        ]
    );
    let swapped = merge_runs(&second, &first);
    assert_eq!(shown(&swapped), shown(&all));
}

#[test]
fn merge_puts_the_first_stream_first_on_equal_starts() {
    let first = vec![run("gap", 0), run("gap", 6)];
    let second = vec![run("match", 0), run("match", 6)];
    let all = merge_runs(&first, &second);
    assert_eq!(
        shown(&all),
        vec![
            (String::from("gap"), 0),
            (String::from("match"), 0),
            (String::from("gap"), 6),
            (String::from("match"), 6),
        ]
    );
}

#[test]
fn merge_with_an_empty_stream_is_the_other_stream() {
    let some = vec![run("a", 3), run("b", 4)];
    let none: Vec<TaggedRun> = Vec::new();
    assert_eq!(shown(&merge_runs(&some, &none)), shown(&some));
    assert_eq!(shown(&merge_runs(&none, &some)), shown(&some));
    assert_eq!(merge_runs(&none, &none).len(), 0);
}

#[test]
fn merge_takes_the_rest_of_the_longer_stream() {
    let first = vec![run("a", 1)];
    let second = vec![run("b", 0), run("c", 2), run("d", 3), run("e", 4)];
    let all = merge_runs(&first, &second);
    assert_eq!(concat_runs(&all), "bacde");
}

#[test]
fn concat_joins_the_texts_in_the_order_of_the_runs() {
    let runs = vec![run("hay", 9), run("", 3), run("needle", 0)];
    assert_eq!(concat_runs(&runs), "hayneedle");
    assert_eq!(concat_runs(&Vec::new()), "");
}
