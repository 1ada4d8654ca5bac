use process_tree::args::{
    i32_from_bytes, parse_macos_procargs, procargs_with_argc, remote_text, split_nul_arguments,
};
use process_tree::text::{is_whitespace, parent_pid_from_status, parse_i32, parse_pid_list};

#[test]
fn parse_i32_accepts_what_str_parse_accepts() {
    let cases = [
        "0", "42", "-17", "+5", "2147483647", "-2147483648", "0000012", "-0", "",
        "-", "+", "2147483648", "-2147483649", "12a", " 1", "1 ", "+-1", "٣", "99999999999",
    ];
    for case in cases {
        assert_eq!(parse_i32(case), case.parse::<i32>().ok(), "input {case:?}");
    }
}

#[test]
fn parse_i32_exact_values() {
    assert_eq!(parse_i32("1234"), Some(1234));
    assert_eq!(parse_i32("-2147483648"), Some(i32::MIN));
    assert_eq!(parse_i32("2147483648"), None);
    assert_eq!(parse_i32("-"), None);
    assert_eq!(parse_i32(""), None);
}

#[test]
fn whitespace_matches_char_is_whitespace() {
    for c in ['\t', '\n', '\u{b}', '\u{c}', '\r', ' ', '\u{85}', '\u{a0}', '\u{1680}', '\u{2000}',
        '\u{200a}', '\u{2028}', '\u{2029}', '\u{202f}', '\u{205f}', '\u{3000}', 'a', '0', '\u{200b}',
        '\u{180e}', '\u{feff}']
    {
        assert_eq!(is_whitespace(c), c.is_whitespace(), "char {:?}", c);
    }
}

#[test]
fn parent_pid_from_a_status_file() {
    let status = "Name:\tbash\nUmask:\t0022\nState:\tS (sleeping)\nTgid:\t4242\nNgid:\t0\nPid:\t4242\nPPid:\t4100\nTracerPid:\t0\n";
    assert_eq!(parent_pid_from_status(status), Some(4100));
}

#[test]
fn parent_pid_edge_cases() {
    assert_eq!(parent_pid_from_status(""), None);
    assert_eq!(parent_pid_from_status("Name:\tx\n"), None);
    assert_eq!(parent_pid_from_status("PPid:\t7"), Some(7));
    assert_eq!(parent_pid_from_status("PPid: 12\r\n"), Some(12));
    assert_eq!(parent_pid_from_status("PPid:\r"), None);
    // A line whose value does not parse is passed over.
    assert_eq!(parent_pid_from_status("PPid: x\nPPid: 5\n"), Some(5));
    // The first line that parses wins.
    assert_eq!(parent_pid_from_status("PPid: 3\nPPid: 5\n"), Some(3));
    // The label must start the line.
    assert_eq!(parent_pid_from_status(" PPid: 3\n"), None);
    assert_eq!(parent_pid_from_status("PPid:\t-1\n"), Some(-1));
}

#[test]
fn parent_pid_agrees_with_the_standard_library() {
    let inputs = [
        "PPid:\t1\n", "a\nPPid:  99  \nb", "PPid:\n", "PPid:\t1\u{3000}\n", "ppid: 1\n",
        "\n\nPPid:4", "PPid:4\r\n\r\n", "PPid:2147483648\nPPid:-3",
    ];
    for input in inputs {
        let expected = input.lines().find_map(|line| {
            line.strip_prefix("PPid:").and_then(|ppid| ppid.trim().parse::<i32>().ok())
        });
        assert_eq!(parent_pid_from_status(input), expected, "input {input:?}");
    }
}

#[test]
fn pid_list_of_a_children_file() {
    assert_eq!(parse_pid_list("101 202 303 \n"), vec![101, 202, 303]);
    assert_eq!(parse_pid_list(""), Vec::<i32>::new());
    assert_eq!(parse_pid_list("   \n"), Vec::<i32>::new());
    assert_eq!(parse_pid_list("7 x 8"), vec![7, 8]);
    assert_eq!(parse_pid_list("1\u{3000}2\t3"), vec![1, 2, 3]);
}

#[test]
fn pid_list_agrees_with_the_standard_library() {
    let inputs = ["  5  6 ", "a b c", "-1 +2 3x 99999999999 4", "\t\n9\r\n10"];
    for input in inputs {
        let expected: Vec<i32> =
            input.split_whitespace().filter_map(|part| part.parse::<i32>().ok()).collect();
        assert_eq!(parse_pid_list(input), expected, "input {input:?}");
    }
}

#[test]
fn cmdline_arguments() {
    assert_eq!(split_nul_arguments(b"ls\0-la\0/tmp\0"), vec!["ls", "-la", "/tmp"]);
    assert_eq!(split_nul_arguments(b"\0\0a\0\0b"), vec!["a", "b"]);
    assert_eq!(split_nul_arguments(b""), Vec::<String>::new());
    assert_eq!(split_nul_arguments(b"\0"), Vec::<String>::new());
    assert_eq!(split_nul_arguments(b"caf\xc3\xa9\0"), vec!["café"]);
    assert_eq!(split_nul_arguments(b"a\xffb\0"), vec!["a\u{fffd}b"]);
}

fn procargs_buffer(argc: i32, path: &[u8], padding: usize, rest: &[u8]) -> Vec<u8> {
    let mut buffer = argc.to_le_bytes().to_vec();
    buffer.extend_from_slice(path);
    buffer.extend(std::iter::repeat(0u8).take(padding));
    buffer.extend_from_slice(rest);
    buffer
}

#[test]
fn macos_procargs_stop_after_argc() {
    let buffer = procargs_buffer(2, b"/bin/echo", 3, b"echo\0hello\0HOME=/root\0PATH=/bin\0");
    assert_eq!(parse_macos_procargs(&buffer, true), vec!["echo", "hello"]);
    assert_eq!(procargs_with_argc(&buffer, 2), vec!["echo", "hello"]);
    assert_eq!(procargs_with_argc(&buffer, 1), vec!["echo"]);
    assert_eq!(procargs_with_argc(&buffer, 4), vec!["echo", "hello", "HOME=/root", "PATH=/bin"]);
}

#[test]
fn macos_procargs_edge_cases() {
    assert_eq!(parse_macos_procargs(&[1, 0, 0, 0], true), Vec::<String>::new());
    assert_eq!(parse_macos_procargs(&[], true), Vec::<String>::new());
    let buffer = procargs_buffer(0, b"/bin/x", 1, b"x\0");
    assert_eq!(parse_macos_procargs(&buffer, true), Vec::<String>::new());
    let buffer = procargs_buffer(-3, b"/bin/x", 1, b"x\0");
    assert_eq!(parse_macos_procargs(&buffer, true), Vec::<String>::new());
    // An empty argument ends the list.
    let buffer = procargs_buffer(3, b"/bin/x", 2, b"x\0\0y\0");
    assert_eq!(parse_macos_procargs(&buffer, true), vec!["x"]);
    // The last argument may run to the end of the buffer.
    let buffer = procargs_buffer(3, b"/bin/x", 2, b"x\0yz");
    assert_eq!(parse_macos_procargs(&buffer, true), vec!["x", "yz"]);
    // Only the path, no arguments.
    let buffer = procargs_buffer(1, b"/bin/x", 0, b"");
    assert_eq!(parse_macos_procargs(&buffer, true), Vec::<String>::new());
}

#[test]
fn rendered_pids_read_back() {
    for v in [0, 1, 9, 10, 4242, 65535, i32::MAX, -1, -10, i32::MIN] {
        assert_eq!(parse_i32(&v.to_string()), Some(v));
    }
    let listed: Vec<i32> = vec![1, 22, 333];
    let text = listed.iter().map(i32::to_string).collect::<Vec<_>>().join(" ");
    assert_eq!(parse_pid_list(&text), listed);
    assert_eq!(parent_pid_from_status(&format!("Pid:\t5\nPPid:\t{}\n", 4_194_304)), Some(4_194_304));
}

#[test]
fn joined_arguments_split_back() {
    let args: Vec<String> =
        vec!["node".into(), "--max-old-space-size=4096".into(), "héllo wörld".into(), "日本".into()];
    let joined: Vec<u8> = args.iter().flat_map(|a| a.bytes().chain([0u8])).collect();
    assert_eq!(split_nul_arguments(&joined), args);
}

#[test]
fn macos_procargs_ignore_what_follows_the_arguments() {
    let buffer = procargs_buffer(2, b"/bin/echo", 2, b"echo\0hi\0");
    assert_eq!(parse_macos_procargs(&buffer, true), vec!["echo", "hi"]);
    let mut extended = buffer.clone();
    extended.extend_from_slice(b"HOME=/root\0TERM=xterm\0");
    assert_eq!(parse_macos_procargs(&extended, true), parse_macos_procargs(&buffer, true));
    assert_eq!(procargs_with_argc(&extended, 2), procargs_with_argc(&buffer, 2));
}

#[test]
fn argument_count_byte_order() {
    assert_eq!(i32_from_bytes([2, 0, 0, 0], true), 2);
    assert_eq!(i32_from_bytes([2, 0, 0, 0], false), 33_554_432);
    assert_eq!(i32_from_bytes([0, 0, 0, 2], false), 2);
    assert_eq!(i32_from_bytes([0xff, 0xff, 0xff, 0xff], true), -1);
    assert_eq!(i32_from_bytes([0x80, 0, 0, 0], false), i32::MIN);
    assert_eq!(i32_from_bytes([0x78, 0x56, 0x34, 0x12], true), 0x1234_5678);
    let mut buffer = 2i32.to_be_bytes().to_vec();
    buffer.extend_from_slice(b"/bin/echo\0\0echo\0hi\0HOME=/\0");
    assert_eq!(parse_macos_procargs(&buffer, false), vec!["echo", "hi"]);
}

#[test]
fn split_arguments_are_nonempty_and_nul_free() {
    let parts = split_nul_arguments(b"a\0\0\xffb\0\0\0c");
    assert_eq!(parts, vec!["a".to_string(), "\u{fffd}b".to_string(), "c".to_string()]);
    for part in &parts {
        assert!(!part.is_empty());
        assert!(!part.contains('\0'));
    }
}

#[test]
fn remote_text_needs_a_complete_read() {
    let units: Vec<u16> = "héllo".encode_utf16().collect();
    assert_eq!(remote_text(true, 10, 10, &units), Some("héllo".to_string()));
    assert_eq!(remote_text(true, 8, 10, &units), None);
    assert_eq!(remote_text(false, 10, 10, &units), None);
    assert_eq!(remote_text(true, 2, 2, &[0xd800]), Some("\u{fffd}".to_string()));
}
