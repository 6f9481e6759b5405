use mini_redis::resp::{
    array_to_redis, array_to_redis_get, buffer_to_string, buffer_to_string_integer,
    checked_redis_to_array, inline_redis, pair_to_redis,
    redis_to_array,
};

fn s(x: &str) -> String {
    x.to_string()
}

fn pair(tag: &str, word: &str) -> (String, Vec<String>) {
    (s(tag), vec![s(word)])
}

/// A receive buffer as the server reads it: 256 bytes, zero-filled after the data.
fn received(data: &[u8]) -> Vec<u8> {
    let mut buf = vec![0u8; 256];
    buf[..data.len()].copy_from_slice(data);
    buf
}

#[test]
fn reads_bulk_string_command() {
    let frames = redis_to_array(&received(b"*1\r\n$4\r\nPING\r\n"));
    assert_eq!(frames, vec![(s("Array"), vec![pair("BulkString", "PING")])]);
}

#[test]
fn reads_set_command_with_three_bulk_strings() {
    let frames = redis_to_array(&received(b"*3\r\n$3\r\nSET\r\n$1\r\na\r\n$6\r\ncoucou\r\n"));
    assert_eq!(
        frames,
        vec![(
            s("Array"),
            vec![pair("BulkString", "SET"), pair("BulkString", "a"), pair("BulkString", "coucou")]
        )]
    );
}

#[test]
fn simple_string_is_its_value() {
    let frames = redis_to_array(&received(b"*1\r\n+OK\r\n"));
    assert_eq!(frames, vec![(s("Array"), vec![pair("SimpleString", "OK")])]);
}

#[test]
fn simple_error_and_integer_keep_their_type_byte() {
    let frames = redis_to_array(&received(b"*2\r\n-ERR\r\n:5\r\n"));
    assert_eq!(
        frames,
        vec![(s("Array"), vec![pair("SimpleError", "ERR"), pair("SimpleInteger", "5")])]
    );
}

#[test]
fn null_and_bool_elements() {
    let frames = redis_to_array(&received(b"*2\r\n_\r\n#t\r\n"));
    assert_eq!(
        frames,
        vec![(s("Array"), vec![pair("Null", ""), pair("Bool", "t")])]
    );
}

#[test]
fn top_level_null_is_a_frame_of_its_own() {
    let frames = redis_to_array(&received(b"_\r\n"));
    assert_eq!(frames, vec![(s("Array"), vec![pair("Null", "")])]);
}

#[test]
fn top_level_element_is_a_frame_of_its_own() {
    assert_eq!(
        redis_to_array(&received(b"+OK\r\n")),
        vec![(s("Array"), vec![pair("SimpleString", "OK")])]
    );
    assert_eq!(
        redis_to_array(&b"$4\r\nPING\r\n".to_vec()),
        vec![(s("Array"), vec![pair("BulkString", "PING")])]
    );
    assert_eq!(
        redis_to_array(&b"#t\r\n".to_vec()),
        vec![(s("Array"), vec![pair("Bool", "t")])]
    );
}

#[test]
fn integer_is_its_value_with_its_sign() {
    assert_eq!(
        redis_to_array(&b"*1\r\n:25\r\n".to_vec()),
        vec![(s("Array"), vec![pair("SimpleInteger", "25")])]
    );
    assert_eq!(
        redis_to_array(&received(b"*1\r\n:-5\r\n")),
        vec![(s("Array"), vec![pair("SimpleInteger", "-5")])]
    );
}

#[test]
fn sign_inside_integer_is_refused() {
    assert_eq!(checked_redis_to_array(&received(b"*1\r\n:5-\r\n")), None);
}

#[test]
fn bulk_payload_bytes_are_data() {
    let frames = redis_to_array(&b"*3\r\n$3\r\nSET\r\n$1\r\nk\r\n$3\r\na-b\r\n".to_vec());
    assert_eq!(
        frames,
        vec![(
            s("Array"),
            vec![pair("BulkString", "SET"), pair("BulkString", "k"), pair("BulkString", "a-b")]
        )]
    );
}

#[test]
fn array_count_groups_that_many_elements() {
    let frames = redis_to_array(&received(b"*2\r\n+a\r\n+b\r\n+c\r\n"));
    assert_eq!(
        frames,
        vec![
            (s("Array"), vec![pair("SimpleString", "a"), pair("SimpleString", "b")]),
            (s("Array"), vec![pair("SimpleString", "c")])
        ]
    );
}

#[test]
fn array_count_with_several_digits() {
    let mut data = b"*10\r\n".to_vec();
    for _ in 0..10 {
        data.extend_from_slice(b"+x\r\n");
    }
    let frames = redis_to_array(&data);
    assert_eq!(frames.len(), 1);
    assert_eq!(frames[0].1.len(), 10);
}

#[test]
fn array_cut_short_keeps_its_elements() {
    assert_eq!(
        redis_to_array(&received(b"*3\r\n+a\r\n")),
        vec![(s("Array"), vec![pair("SimpleString", "a")])]
    );
}

#[test]
fn malformed_count_is_refused() {
    assert_eq!(checked_redis_to_array(&received(b"*x\r\n")), None);
    assert_eq!(checked_redis_to_array(&received(b"*\r\n")), None);
    assert_eq!(checked_redis_to_array(&received(b"*99999999999999999999999\r\n")), None);
}

#[test]
fn zero_padding_changes_nothing() {
    let data = b"*2\r\n$3\r\nGET\r\n$1\r\na\r\n".to_vec();
    assert_eq!(redis_to_array(&data), redis_to_array(&received(&data)));
}

#[test]
fn bulk_string_reads_back() {
    let written = pair_to_redis(pair("BulkString", "hello world"));
    let mut data = b"*1\r\n".to_vec();
    data.extend_from_slice(written.as_bytes());
    let frames = redis_to_array(&data);
    assert_eq!(frames, vec![(s("Array"), vec![pair("BulkString", "hello world")])]);
    assert_eq!(pair_to_redis(frames[0].1[0].clone()), written);
}

#[test]
fn carriage_return_without_line_feed_is_refused() {
    assert_eq!(checked_redis_to_array(&received(b"*1\r\n+OK\rX")), None);
}

#[test]
fn line_feed_at_start_is_refused() {
    assert_eq!(checked_redis_to_array(&received(b"\nPING")), None);
}

#[test]
fn nested_count_is_refused() {
    assert_eq!(checked_redis_to_array(&received(b"*2\r\n*1\r\n")), None);
}

#[test]
fn bool_at_end_of_buffer_is_refused() {
    assert_eq!(checked_redis_to_array(&b"*1\r\n#".to_vec()), None);
}

#[test]
fn inline_text_reads_no_frame() {
    assert_eq!(redis_to_array(&received(b"PING\r\n")), vec![]);
}

#[test]
fn zero_byte_ends_reading() {
    assert_eq!(redis_to_array(&vec![0u8, b'+', b'x']), vec![]);
}

#[test]
fn inline_command_words() {
    assert_eq!(
        inline_redis(&received(b"PING\r\n")),
        vec![(s("Array"), vec![pair("SimpleString", "PING")])]
    );
    assert_eq!(
        inline_redis(&received(b"SET a  b\r\nGET a")),
        vec![(
            s("Array"),
            vec![
                pair("SimpleString", "SET"),
                pair("SimpleString", "a"),
                pair("SimpleString", ""),
                pair("SimpleString", "b")
            ]
        )]
    );
}

#[test]
fn inline_empty_buffer_gives_one_empty_word() {
    assert_eq!(
        inline_redis(&vec![]),
        vec![(s("Array"), vec![pair("SimpleString", "")])]
    );
}

#[test]
fn writes_each_element_kind() {
    assert_eq!(pair_to_redis(pair("SimpleString", "OK")), "+OK\r\n");
    assert_eq!(pair_to_redis(pair("SimpleError", "ERR x")), "-ERR x\r\n");
    assert_eq!(pair_to_redis(pair("SimpleInteger", "25")), ":25\r\n");
    assert_eq!(pair_to_redis(pair("Integer", "25")), ":25\r\n");
    assert_eq!(pair_to_redis(pair("BulkString", "coucou")), "$6\r\ncoucou\r\n");
    assert_eq!(pair_to_redis(pair("Null", "")), "_\r\n");
    assert_eq!(pair_to_redis(pair("Bool", "t")), "#t\r\n");
}

#[test]
fn simple_string_joins_all_words() {
    assert_eq!(
        pair_to_redis((s("SimpleString"), vec![s("a"), s("b"), s("c")])),
        "+abc\r\n"
    );
}

#[test]
fn bulk_string_length_counts_utf8_bytes() {
    assert_eq!(pair_to_redis(pair("BulkString", "\u{e9}t\u{e9}")), "$5\r\n\u{e9}t\u{e9}\r\n");
    assert_eq!(pair_to_redis(pair("BulkString", "")), "$0\r\n\r\n");
}

#[test]
fn bulk_string_length_with_two_digits() {
    let word = "abcdefghijkl";
    assert_eq!(pair_to_redis(pair("BulkString", word)), "$12\r\nabcdefghijkl\r\n");
}

#[test]
fn array_skips_command_word() {
    let arr = vec![pair("BulkString", "PING"), pair("BulkString", "a"), pair("SimpleString", "b")];
    assert_eq!(array_to_redis(&arr, 3), "*2\r\n$1\r\na\r\n+b\r\n");
    assert_eq!(array_to_redis(&arr, 1), "*0\r\n");
}

#[test]
fn array_for_get_keeps_all_elements() {
    let arr = vec![pair("BulkString", "x"), pair("Null", "")];
    assert_eq!(array_to_redis_get(&arr, 2), "*2\r\n$1\r\nx\r\n_\r\n");
    assert_eq!(array_to_redis_get(&arr, 0), "*0\r\n");
}

#[test]
fn read_elements_can_be_written_back() {
    let frames = redis_to_array(&received(b"*3\r\n+a\r\n_\r\n#f\r\n"));
    let texts: Vec<String> = frames[0].1.iter().map(|p| pair_to_redis(p.clone())).collect();
    assert_eq!(texts, vec![s("+a\r\n"), s("_\r\n"), s("#f\r\n")]);
}


#[test]
fn carriage_return_without_line_feed_after_bool_is_refused() {
    assert_eq!(checked_redis_to_array(&b"#t\rX".to_vec()), None);
}

#[test]
fn lone_line_feed_in_a_line_is_refused() {
    assert_eq!(checked_redis_to_array(&received(b"+a\nb\r\n")), None);
    assert_eq!(checked_redis_to_array(&received(b"*1\r\n$3\r\na\nb\r\n")), None);
    assert_eq!(checked_redis_to_array(&received(b"*1\r\n$\n3\r\nabc\r\n")), None);
}

#[test]
fn bool_followed_by_line_ending_bytes() {
    assert_eq!(
        redis_to_array(&received(b"#\r\n")),
        vec![(s("Array"), vec![pair("Bool", "\r")])]
    );
    assert_eq!(checked_redis_to_array(&received(b"#\n")), None);
    assert_eq!(
        redis_to_array(&received(b"#")),
        vec![(s("Array"), vec![pair("Bool", "\0")])]
    );
}

#[test]
fn zero_byte_right_after_type_byte_gives_empty_value() {
    assert_eq!(
        redis_to_array(&vec![b'+', 0, b'x', b'\n']),
        vec![(s("Array"), vec![pair("SimpleString", "")])]
    );
}

#[test]
fn underscore_and_hash_inside_data_are_data() {
    assert_eq!(
        redis_to_array(&received(b"*2\r\n$6\r\nmy_key\r\n+a#b\r\n")),
        vec![(s("Array"), vec![pair("BulkString", "my_key"), pair("SimpleString", "a#b")])]
    );
}

#[test]
fn integer_reader_reads_as_word_reader_without_later_sign() {
    let buf = b"-12ab\r\n".to_vec();
    assert_eq!(buffer_to_string_integer(&buf, 0), buffer_to_string(&buf, 0));
    assert_eq!(buffer_to_string(&buf, 0), Some(s("-12ab")));
    let bad = b"1-2\r\n".to_vec();
    assert_eq!(buffer_to_string_integer(&bad, 0), None);
    assert_eq!(buffer_to_string(&bad, 0), Some(s("1-2")));
}
