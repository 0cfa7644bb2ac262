use calisto::ruby::elf::{symtab_lookup, symtab_lookup_checked, Read};
use calisto::ruby::{
    boot_args, boot_result, error_summary, fixnum, libruby_path, library_dir, local_address,
    local_address_checked, padded_args, Qfalse, Qnil, Qtrue,
};

fn names(list: &[&str]) -> Vec<String> {
    list.iter().map(|w| w.to_string()).collect()
}

#[test]
fn small_integers() {
    assert_eq!(fixnum(0), 1);
    assert_eq!(fixnum(1), 3);
    assert_eq!(fixnum(21), 43);
    assert_eq!(fixnum(-1), usize::MAX);
    assert_eq!(fixnum(i32::MIN), ((i32::MIN as usize) << 1) | 1);
    assert_ne!(fixnum(2), Qnil);
    assert_ne!(fixnum(10), Qtrue);
    assert_ne!(fixnum(0), Qfalse);
}

#[test]
fn libraries_are_chosen() {
    assert_eq!(library_dir("/v/ruby/bin/ruby").unwrap(), "/v/ruby/lib");
    assert!(library_dir("ruby").is_none());
    let all = names(&["libruby.so", "libruby.so.3.4.10", "x.so.3.4.10.11", "libruby.so.3.4"]);
    assert_eq!(libruby_path("/l", &all).unwrap(), "/l/libruby.so.3.4.10");
    let equal = names(&["libruby.so.1", "libruby.so.2"]);
    assert_eq!(libruby_path("/l", &equal).unwrap(), "/l/libruby.so.1");
    assert!(libruby_path("/l", &names(&["libruby-static.a"])).is_none());
}

#[test]
fn starting() {
    assert_eq!(boot_args(false), names(&["ruby", "-e", ""]));
    assert_eq!(boot_args(true), names(&["ruby", "--yjit", "-e", ""]));
    assert!(boot_result(0x7f00).is_ok());
    assert_eq!(boot_result(0).unwrap_err(), "boot: ruby_options retornou nulo");
    assert_eq!(boot_result(3).unwrap_err(), "boot: ruby_options falhou (exit 1)");
}

#[test]
fn arguments_of_protected_calls() {
    assert_eq!(padded_args(&[1, 2]), vec![1, 2, Qnil, Qnil, Qnil, Qnil, Qnil, Qnil]);
    assert_eq!(padded_args(&[1, 2, 3, 4, 5, 6, 7, 8, 9]), vec![1, 2, 3, 4, 5, 6, 7, 8]);
}

#[test]
fn errors_are_summed_up() {
    assert_eq!(error_summary("RuntimeError", "no"), "RuntimeError: no");
}

#[test]
fn addresses_of_local_symbols() {
    assert_eq!(local_address(0x7f00_0000_1000, 0x1000, 0x1800), 0x7f00_0000_1800);
    assert_eq!(local_address(0x7f00_0000_1000, 0x1000, 0x800), 0x7f00_0000_0800);
    assert_eq!(local_address(0, 1, 0), u64::MAX);
    assert_eq!(local_address_checked(1, 0, i64::MAX as u64), None);
    assert_eq!(local_address_checked(5, 2, 2), Some(5));
}

fn put(data: &mut Vec<u8>, at: usize, bytes: &[u8]) {
    for (i, b) in bytes.iter().enumerate() {
        data[at + i] = *b;
    }
}

/// A file with four sections: none, the symbols, their names, and the names of
/// the sections.
fn library() -> Vec<u8> {
    let mut d = vec![0u8; 1024];
    d[4] = 2;
    put(&mut d, 40, &512u64.to_le_bytes());
    put(&mut d, 58, &64u16.to_le_bytes());
    put(&mut d, 60, &4u16.to_le_bytes());
    put(&mut d, 62, &3u16.to_le_bytes());
    // The names of the sections, and those of the symbols.
    put(&mut d, 64, b"\0.symtab\0.strtab\0");
    put(&mut d, 128, b"\0ruby_options\0stop\0");
    // The symbols: none, `ruby_options`, `stop`.
    put(&mut d, 256 + 24, &1u32.to_le_bytes());
    put(&mut d, 256 + 24 + 8, &0x1000u64.to_le_bytes());
    put(&mut d, 256 + 48, &14u32.to_le_bytes());
    put(&mut d, 256 + 48 + 8, &0x1234u64.to_le_bytes());
    let mut header = |i: usize, name: u32, kind: u32, off: u64, size: u64, link: u32, entry: u64| {
        let h = 512 + 64 * i;
        put(&mut d, h, &name.to_le_bytes());
        put(&mut d, h + 4, &kind.to_le_bytes());
        put(&mut d, h + 24, &off.to_le_bytes());
        put(&mut d, h + 32, &size.to_le_bytes());
        put(&mut d, h + 40, &link.to_le_bytes());
        put(&mut d, h + 56, &entry.to_le_bytes());
    };
    header(1, 1, 2, 256, 72, 2, 24);
    header(2, 9, 3, 128, 32, 0, 0);
    header(3, 9, 3, 64, 32, 0, 0);
    d
}

#[test]
fn symbols_are_found() {
    let d = library();
    assert_eq!(symtab_lookup(&d, b"stop"), Some(0x1234));
    assert_eq!(symtab_lookup(&d, b"ruby_options"), Some(0x1000));
    assert_eq!(symtab_lookup(&d, b""), Some(0));
    assert_eq!(symtab_lookup(&d, b"start"), None);
    assert_eq!(symtab_lookup(&d[..63], b"stop"), None);
    let mut small = d.clone();
    small[4] = 1;
    assert_eq!(symtab_lookup(&small, b"stop"), None);
    let mut renamed = d.clone();
    renamed[65] = b'x';
    assert_eq!(symtab_lookup(&renamed, b"stop"), None);
}

#[test]
fn broken_libraries_are_told_apart() {
    assert!(matches!(symtab_lookup_checked(&library(), b"stop"), Read::Got(0x1234)));
    let mut short = library();
    put(&mut short, 58, &16u16.to_le_bytes());
    assert!(matches!(symtab_lookup_checked(&short, b"stop"), Read::Broken));
    let mut far = library();
    put(&mut far, 40, &u64::MAX.to_le_bytes());
    assert!(matches!(symtab_lookup_checked(&far, b"stop"), Read::Broken));
    let mut outside = library();
    put(&mut outside, 40, &4096u64.to_le_bytes());
    assert!(matches!(symtab_lookup_checked(&outside, b"stop"), Read::Missing));
}
