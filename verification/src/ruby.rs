//! The Ruby that runs in the process: its library, the values that it
//! represents in words, and how it starts.
pub mod elf;

use vstd::prelude::*;
use crate::number;
use crate::number::decimal_of;
use crate::path;
use crate::path::{join_path, parent};
use crate::text;
use crate::text::{chars_of, strip_prefix};

verus! {

/// A value of Ruby, in a word.
pub type VALUE = usize;

/// The name of a method, in a word.
pub type ID = usize;

/// The word of `nil`.
#[allow(non_upper_case_globals)]
pub const Qnil: usize = 4;

/// The word of `false`.
#[allow(non_upper_case_globals)]
pub const Qfalse: usize = 0;

/// The word of `true`.
#[allow(non_upper_case_globals)]
pub const Qtrue: usize = 20;

/// A mark of a type whose values are freed at once.
pub const RUBY_TYPED_FREE_IMMEDIATELY: usize = 1;

/// The word of a small integer: twice the integer and one more, with the
/// negative ones counted down from the largest word.
pub open spec fn fixnum_word(n: int) -> int {
    if n >= 0 {
        2 * n + 1
    } else {
        usize::MAX + 1 + 2 * n + 1
    }
}

/// The word of a small integer.
pub fn fixnum(n: i32) -> (r: VALUE)
    ensures
        r == fixnum_word(n as int),
{
    let w: usize = n as usize;
    let r: usize = (w << 1) | 1;
    proof {
        if n >= 0 {
            assert(r == 2 * n + 1) by (bit_vector)
                requires
                    w == n as usize,
                    r == (w << 1usize) | 1usize,
                    n >= 0,
            ;
        } else {
            let largest = usize::MAX;
            assert(largest <= !0usize) by (bit_vector);
            assert(r == !0usize + 1 + 2 * n + 1) by (bit_vector)
                requires
                    w == n as usize,
                    r == (w << 1usize) | 1usize,
                    n < 0,
            ;
        }
    }
    r
}

/// The words of small integers are odd, unlike those of `nil`, `true` and
/// `false`, and with words of 64 bits distinct integers have distinct words.
pub proof fn law_fixnum_distinct(m: i32, n: i32)
    requires
        usize::MAX == u64::MAX,
    ensures
        fixnum_word(m as int) % 2 == 1,
        fixnum_word(m as int) == fixnum_word(n as int) <==> m == n,
        fixnum_word(m as int) != Qnil,
        fixnum_word(m as int) != Qtrue,
        fixnum_word(m as int) != Qfalse,
{
}

/// A word of 64 bits, read with a sign.
pub open spec fn signed_word(w: u64) -> int {
    if w <= i64::MAX {
        w as int
    } else {
        w - 0x1_0000_0000_0000_0000
    }
}

/// Where a symbol is in memory, next to one that was found there.
pub open spec fn local_place(anchor: u64, anchor_value: u64, value: u64) -> int {
    signed_word(anchor) + (signed_word(value) - signed_word(anchor_value))
}

/// Whether that place can be computed in signed words.
pub open spec fn place_fits(anchor: u64, anchor_value: u64, value: u64) -> bool {
    &&& i64::MIN <= signed_word(value) - signed_word(anchor_value) <= i64::MAX
    &&& i64::MIN <= local_place(anchor, anchor_value, value) <= i64::MAX
}

fn read_signed(w: u64) -> (r: i128)
    ensures
        r == signed_word(w),
{
    if w <= 0x7fff_ffff_ffff_ffff {
        w as i128
    } else {
        w as i128 - 0x1_0000_0000_0000_0000
    }
}

/// The address in memory of a symbol that the library does not export, where
/// it can be computed: it is as far from the address of one that is exported
/// as their values in the file are from each other.
pub fn local_address_checked(anchor: u64, anchor_value: u64, value: u64) -> (r: Option<u64>)
    ensures
        match r {
            Some(a) => place_fits(anchor, anchor_value, value) && signed_word(a) == local_place(
                anchor,
                anchor_value,
                value,
            ),
            None => !place_fits(anchor, anchor_value, value),
        },
{
    let d: i128 = read_signed(value) - read_signed(anchor_value);
    let a: i128 = read_signed(anchor) + d;
    let (low, high): (i128, i128) = (-0x8000_0000_0000_0000, 0x7fff_ffff_ffff_ffff);
    if d < low || d > high || a < low || a > high {
        None
    } else if a >= 0 {
        Some(a as u64)
    } else {
        Some((a + 0x1_0000_0000_0000_0000) as u64)
    }
}

/// The address in memory of a symbol that the library does not export.
pub fn local_address(anchor: u64, anchor_value: u64, value: u64) -> (r: u64)
    requires
        place_fits(anchor, anchor_value, value),
    ensures
        signed_word(r) == local_place(anchor, anchor_value, value),
{
    match local_address_checked(anchor, anchor_value, value) {
        Some(a) => a,
        None => 0,
    }
}

/// Where the library is loaded does not have to be known: with the whole of it
/// moved by `bias`, every symbol is found at its value moved by `bias`.
pub proof fn law_bias_cancels(bias: u64, anchor_value: u64, value: u64, anchor: u64)
    requires
        bias + anchor_value <= i64::MAX,
        bias + value <= i64::MAX,
        anchor == bias + anchor_value,
    ensures
        place_fits(anchor, anchor_value, value),
        local_place(anchor, anchor_value, value) == bias + value,
{
}

/// Whether a file is a version of the library, by its name.
pub open spec fn is_library(name: Seq<char>) -> bool {
    text::has_prefix(name, "libruby.so"@)
}

/// The number of bytes that write a name.
pub open spec fn byte_len(name: Seq<char>) -> nat {
    vstd::utf8::encode_utf8(name).len()
}

/// The library among the files of a directory: the one with the longest name,
/// and the first of several such.
pub open spec fn best_library(names: Seq<Seq<char>>) -> Option<Seq<char>>
    decreases names.len(),
{
    if names.len() == 0 {
        None
    } else {
        let best = best_library(names.drop_last());
        let n = names.last();
        if !is_library(n) {
            best
        } else {
            match best {
                Some(b) => if byte_len(n) > byte_len(b) {
                    Some(n)
                } else {
                    best
                },
                None => Some(n),
            }
        }
    }
}

/// The directory with the library of a Ruby.
pub open spec fn library_dir_of(ruby: Seq<char>) -> Option<Seq<char>> {
    match path::parent_of(ruby) {
        None => None,
        Some(bin) => match path::parent_of(bin) {
            None => None,
            Some(root) => Some(path::joined_path(root, "lib"@)),
        },
    }
}

/// The directory with the library of a Ruby.
pub fn library_dir(ruby: &str) -> (r: Option<String>)
    ensures
        match r {
            Some(d) => library_dir_of(ruby@) == Some(d@),
            None => library_dir_of(ruby@) is None,
        },
{
    match parent(ruby) {
        None => None,
        Some(bin) => match parent(bin.as_str()) {
            None => None,
            Some(root) => Some(join_path(root.as_str(), "lib")),
        },
    }
}

/// Chooses the library of a Ruby among the files of its directory.
pub fn libruby_path(dir: &str, names: &Vec<String>) -> (r: Option<String>)
    ensures
        match best_library(text::views(names@)) {
            Some(n) => r matches Some(p) && p@ == path::joined_path(dir@, n),
            None => r is None,
        },
{
    let ghost all = text::views(names@);
    let mut best: Option<usize> = None;
    let mut i: usize = 0;
    assert(all.take(0).len() == 0);
    while i < names.len()
        invariant
            i <= names@.len(),
            all == text::views(names@),
            match best {
                Some(k) => k < i && best_library(all.take(i as int)) == Some(names@[k as int]@),
                None => best_library(all.take(i as int)) is None,
            },
        decreases names@.len() - i,
    {
        assert(all.take(i + 1).drop_last() =~= all.take(i as int));
        assert(all.take(i + 1).last() == names@[i as int]@);
        let c = chars_of(names[i].as_str());
        if strip_prefix(c.as_slice(), "libruby.so").is_some() {
            best = match best {
                Some(k) => if names[i].as_str().as_bytes().len()
                    > names[k].as_str().as_bytes().len() {
                    Some(i)
                } else {
                    best
                },
                None => Some(i),
            };
        }
        i += 1;
    }
    assert(all.take(i as int) =~= all);
    match best {
        Some(k) => Some(join_path(dir, names[k].as_str())),
        None => None,
    }
}

/// The most specific version of the library is preferred: no other has a
/// longer name.
pub proof fn law_longest_name_wins(names: Seq<Seq<char>>, i: int)
    requires
        0 <= i < names.len(),
        is_library(names[i]),
    ensures
        best_library(names) matches Some(b) && byte_len(names[i]) <= byte_len(b),
    decreases names.len(),
{
    if i < names.len() - 1 {
        law_longest_name_wins(names.drop_last(), i);
    }
}

/// The arguments with which Ruby starts: it runs no program, and where it is
/// asked for it compiles while it runs.
pub fn boot_args(yjit: bool) -> (r: Vec<String>)
    ensures
        text::views(r@) == (if yjit {
            seq!["ruby"@, "--yjit"@, "-e"@, ""@]
        } else {
            seq!["ruby"@, "-e"@, ""@]
        }),
{
    let mut r: Vec<String> = Vec::new();
    r.push("ruby".to_string());
    if yjit {
        r.push("--yjit".to_string());
    }
    r.push("-e".to_string());
    r.push("".to_string());
    assert(text::views(r@) =~= (if yjit {
        seq!["ruby"@, "--yjit"@, "-e"@, ""@]
    } else {
        seq!["ruby"@, "-e"@, ""@]
    }));
    r
}

/// What the word that Ruby returns from its start means: it is even, and not
/// zero, where Ruby started; an odd one holds a status of exit.
pub fn boot_result(node: usize) -> (r: Result<(), String>)
    ensures
        match r {
            Ok(_) => node != 0 && node % 2 == 0,
            Err(e) => if node == 0 {
                e@ == "boot: ruby_options retornou nulo"@
            } else {
                node % 2 == 1 && e@ == "boot: ruby_options falhou (exit "@ + number::decimal(
                    (node / 2) as nat,
                ) + ")"@
            },
        },
{
    if node == 0 {
        return Err("boot: ruby_options retornou nulo".to_string());
    }
    if node % 2 == 1 {
        let mut e = "boot: ruby_options falhou (exit ".to_string();
        e.append(decimal_of((node / 2) as u64).as_str());
        e.append(")");
        return Err(e);
    }
    Ok(())
}

/// The arguments of a protected call: eight of them, filled up with `nil`.
pub open spec fn call_args(args: Seq<usize>) -> Seq<usize> {
    Seq::new(
        8,
        |i: int|
            if i < args.len() {
                args[i]
            } else {
                Qnil
            },
    )
}

/// Fills the arguments of a protected call; those after the eighth are left
/// out.
pub fn padded_args(args: &[usize]) -> (r: Vec<usize>)
    ensures
        r@ == call_args(args@),
{
    let mut r: Vec<usize> = Vec::new();
    let mut i: usize = 0;
    while i < 8
        invariant
            i <= 8,
            r@ == call_args(args@).take(i as int),
        decreases 8 - i,
    {
        if i < args.len() {
            r.push(args[i]);
        } else {
            r.push(Qnil);
        }
        assert(r@ =~= call_args(args@).take(i + 1));
        i += 1;
    }
    assert(r@ =~= call_args(args@));
    r
}

/// The class and the message of an error.
pub fn error_summary(class: &str, message: &str) -> (r: String)
    ensures
        r@ == class@ + ": "@ + message@,
{
    let mut r = class.to_string();
    r.append(": ");
    r.append(message);
    r
}

/// What is chosen is one of the files and a version of the library, and the first
/// of those with the longest name; there is none exactly where no file is one.
pub proof fn law_chosen_library(names: Seq<Seq<char>>)
    ensures
        match best_library(names) {
            Some(b) => exists|i: int|
                {
                    &&& 0 <= i < names.len()
                    &&& #[trigger] names[i] == b
                    &&& text::has_prefix(b, "libruby.so"@)
                    &&& forall|j: int|
                        0 <= j < i && text::has_prefix(#[trigger] names[j], "libruby.so"@)
                            ==> byte_len(names[j]) < byte_len(b)
                },
            None => forall|j: int|
                0 <= j < names.len() ==> !text::has_prefix(#[trigger] names[j], "libruby.so"@),
        },
    decreases names.len(),
{
    if names.len() > 0 {
        let head = names.drop_last();
        let n = names.last();
        law_chosen_library(head);
        let last = names.len() - 1;
        match best_library(head) {
            Some(b) => {
                let i = choose|i: int|
                    {
                        &&& 0 <= i < head.len()
                        &&& #[trigger] head[i] == b
                        &&& text::has_prefix(b, "libruby.so"@)
                        &&& forall|j: int|
                            0 <= j < i && text::has_prefix(#[trigger] head[j], "libruby.so"@)
                                ==> byte_len(head[j]) < byte_len(b)
                    };
                if best_library(names) == Some(b) && !(is_library(n) && byte_len(n) > byte_len(b)) {
                    assert(names[i] == b);
                    assert forall|j: int|
                        0 <= j < i && text::has_prefix(
                            #[trigger] names[j],
                            "libruby.so"@,
                        ) implies byte_len(names[j]) < byte_len(b) by {
                        assert(names[j] == head[j]);
                    }
                } else {
                    assert(names[last] == n);
                    assert forall|j: int|
                        0 <= j < last && text::has_prefix(
                            #[trigger] names[j],
                            "libruby.so"@,
                        ) implies byte_len(names[j]) < byte_len(n) by {
                        assert(names[j] == head[j]);
                        law_longest_name_wins(head, j);
                    }
                }
            },
            None => {
                if is_library(n) {
                    assert(names[last] == n);
                    assert forall|j: int|
                        0 <= j < last && text::has_prefix(
                            #[trigger] names[j],
                            "libruby.so"@,
                        ) implies byte_len(names[j]) < byte_len(n) by {
                        assert(names[j] == head[j]);
                    }
                } else {
                    assert forall|j: int| 0 <= j < names.len() implies !text::has_prefix(
                        #[trigger] names[j],
                        "libruby.so"@,
                    ) by {
                        if j < last {
                            assert(names[j] == head[j]);
                        }
                    }
                }
            },
        }
    }
}

/// The library of a Ruby is looked for in `lib`, next to the directory of the
/// program.
pub proof fn law_library_dir(root: Seq<char>)
    requires
        root.len() > 0 && root.last() != '/' && path::tail_stripped(root) == root,
    ensures
        library_dir_of(root + "/bin/ruby"@) == Some(root + "/lib"@),
{
    reveal_strlit("/bin/ruby");
    reveal_strlit("bin");
    reveal_strlit("ruby");
    reveal_strlit("lib");
    reveal_strlit("/lib");
    let bin = root + seq!['/'] + "bin"@;
    assert(root + "/bin/ruby"@ =~= bin + seq!['/'] + "ruby"@);
    assert(path::tail_stripped(bin) == bin);
    path::lemma_parent_of_child(bin, "ruby"@);
    path::lemma_parent_of_child(root, "bin"@);
    assert(path::joined_path(root, "lib"@) =~= root + "/lib"@);
}

} // verus!
