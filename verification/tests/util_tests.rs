use q16::util::ArgParser;
use q16::util::CircularBuffer;
use q16::util::parse_r3g3b2;

#[test]
fn test_circular_buf() {
    let mut buf = CircularBuffer::<i32, 10>::new();
    assert_eq!(buf.len(), 0);
    assert_eq!(buf.items(), []);

    for i in 0..5 {
        buf.push(i);
    }
    assert_eq!(buf.len(), 5);
    assert_eq!(buf.items(), [0, 1, 2, 3, 4]);

    for i in 5..15 {
        buf.push(i);
    }
    assert_eq!(buf.len(), 10);
    assert_eq!(buf.items(), [10, 11, 12, 13, 14, 5, 6, 7, 8, 9]);

    buf.clear();
    assert_eq!(buf.len(), 0);
    assert_eq!(buf.items(), []);
}

fn arr_conv(xs: &[&str]) -> Vec<String> {
    xs.iter().map(|s| s.to_string()).collect()
}

#[test]
fn test_arg_parser() {
    let mut parser = ArgParser::new(arr_conv(&["a.o", "b.o", "-o", "test.bin", "c.o"]));
    assert_eq!(parser.take_flag("-o"), Some("test.bin".to_string()));
    assert_eq!(parser.take_flag("-o"), None);
    assert_eq!(parser.take_flag("-p"), None);
    assert_eq!(parser.remaining(), arr_conv(&["a.o", "b.o", "c.o"]));

    let mut parser = ArgParser::new(arr_conv(&["a.o", "-o"]));
    assert_eq!(parser.take_flag("-o"), None);
    assert_eq!(parser.remaining(), arr_conv(&["a.o", "-o"]));

    let mut parser = ArgParser::new(arr_conv(&[]));
    assert_eq!(parser.take_flag("-o"), None);
    assert_eq!(parser.remaining(), arr_conv(&[]));
}

#[test]
fn test_parse_r3g3b2() {
    assert_eq!(parse_r3g3b2(0xff), (7, 7, 3));
    assert_eq!(parse_r3g3b2(0x00), (0, 0, 0));
    assert_eq!(parse_r3g3b2(0b10_010_001), (1, 2, 2));
}
