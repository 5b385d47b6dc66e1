use tui_incremental::split_word_wrap::split_word_wrap;

#[test]
fn it_preserves_short_input() {
    let v = "hello world";

    let data_stream = split_word_wrap(v, 100);

    assert_eq!(data_stream.len(), 1);
    assert_eq!(&v[data_stream.into_iter().next().unwrap()], v);
}

#[test]
fn it_splits_on_words() {
    let v = "hello world";

    let data_stream = split_word_wrap(v, 8);

    assert_eq!(data_stream.len(), 2);
    let mut data_stream = data_stream.into_iter();
    assert_eq!(&v[data_stream.next().unwrap()], "hello ");
    assert_eq!(&v[data_stream.next().unwrap()], "world");
}

#[test]
fn it_splits_on_words_and_anywhere_in_ws() {
    let v = "hello         world";

    let data_stream = split_word_wrap(v, 8);

    assert_eq!(data_stream.len(), 3);

    let mut data_stream = data_stream.into_iter();

    assert_eq!(&v[data_stream.next().unwrap()], "hello   ");
    assert_eq!(&v[data_stream.next().unwrap()], "      ");
    assert_eq!(&v[data_stream.next().unwrap()], "world");
}

#[test]
fn it_splits_words_when_necessary() {
    let v = "abcdefghijklmnopqrs";

    let data_stream = split_word_wrap(v, 8);

    assert_eq!(data_stream.len(), 3);
    let mut data_stream = data_stream.into_iter();

    assert_eq!(&v[data_stream.next().unwrap()], "abcdefgh");
    assert_eq!(&v[data_stream.next().unwrap()], "ijklmnop");
    assert_eq!(&v[data_stream.next().unwrap()], "qrs");
}

#[test]
fn empty_text_gives_no_lines() {
    assert!(split_word_wrap("", 8).is_empty());
}

#[test]
fn newline_closes_the_line_before_it() {
    let v = "ab\ncd";
    let lines = split_word_wrap(v, 10);
    assert_eq!(lines, vec![0..2, 2..5]);
}

#[test]
fn tab_counts_as_a_break_point() {
    let v = "hello\tworld";
    let lines = split_word_wrap(v, 8);
    assert_eq!(lines, vec![0..6, 6..11]);
}

#[test]
fn lines_tile_the_text() {
    let v = "the quick brown fox jumps over the lazy dog";
    let lines = split_word_wrap(v, 7);
    assert_eq!(lines.first().unwrap().start, 0);
    assert_eq!(lines.last().unwrap().end, v.len());
    for pair in lines.windows(2) {
        assert_eq!(pair[0].end, pair[1].start);
    }
    for line in &lines {
        assert!(line.end - line.start <= 7);
    }
}
