use sks_trainer::model::Progress;
use sks_trainer::report::{format_progress, progressbar, widest_topic};

#[test]
fn progressbar_fills_from_the_left() {
    assert_eq!(progressbar(2, 5), "[==   ]");
    assert_eq!(progressbar(0, 3), "[   ]");
    assert_eq!(progressbar(3, 3), "[===]");
    assert_eq!(progressbar(0, 0), "[]");
}

#[test]
fn formats_a_row_into_an_aligned_line() {
    let p = Progress::new("Navigation".to_string(), 2, 3);
    let line = format_progress(&p, 10, 10);
    assert_eq!(line, "Navigation [======    ]   2 /   3 = 66.67 %");
}

#[test]
fn formats_a_padded_topic() {
    let p = Progress::new("Wetter".to_string(), 1, 2);
    let line = format_progress(&p, 10, 4);
    assert_eq!(line, "Wetter     [==  ]   1 /   2 = 50.00 %");
}

#[test]
fn formats_the_zero_data_row_without_a_fault() {
    let p = Progress::new("Total".to_string(), 0, 0);
    let line = format_progress(&p, 5, 4);
    assert_eq!(line, "Total [    ]   0 /   0 =  0.00 %");
}

#[test]
fn formats_a_full_row() {
    let p = Progress::new("Navigation".to_string(), 3, 3);
    let line = format_progress(&p, 10, 8);
    assert_eq!(line, "Navigation [========]   3 /   3 = 100.00 %");
}

#[test]
fn widest_topic_is_the_column_width() {
    let rows = vec![
        Progress::new("Navigation".to_string(), 1, 2),
        Progress::new("Wetterkunde".to_string(), 0, 1),
        Progress::new("Recht".to_string(), 1, 1),
    ];
    assert_eq!(widest_topic(&rows), 11);
    assert_eq!(widest_topic(&Vec::new()), 0);
}
