use prunepytest::wire::{get_len, get_num, get_str, put_num, put_str};

#[test]
fn integers_are_written_with_a_length_in_the_first_byte() {
    let mut out = Vec::new();
    put_num(&mut out, 5);
    assert_eq!(vec![5], out);
    put_num(&mut out, 300);
    assert_eq!(vec![5, 0x81, 0x2c], out);
    put_num(&mut out, u64::MAX);
    assert_eq!(12, out.len());
    assert_eq!(Some((5, 1)), get_num(&out, 0));
    assert_eq!(Some((300, 3)), get_num(&out, 1));
    assert_eq!(Some((u64::MAX, 12)), get_num(&out, 3));
    assert_eq!(None, get_num(&out, 12));
    assert_eq!(None, get_num(&vec![0x81], 0));
    assert_eq!(Some((300, 3)), get_len(&out, 1));
}

#[test]
fn strings_are_written_after_the_length_of_their_bytes() {
    let mut out = vec![9];
    put_str(&mut out, "h\u{e9}llo");
    assert_eq!(vec![9, 6, b'h', 0xc3, 0xa9, b'l', b'l', b'o'], out);
    assert_eq!(Some(("h\u{e9}llo".to_string(), 8)), get_str(&out, 1));
    assert_eq!(None, get_str(&out, 0));
    assert_eq!(None, get_str(&vec![2, 0xc3, 0x28], 0));
    assert_eq!(Some((String::new(), 1)), get_str(&vec![0], 0));
}
