//! The symbol table of a shared library: a 64-bit ELF file, least significant
//! byte first.
use vstd::prelude::*;
use vstd::slice::slice_subrange;
use crate::hash::words;
use crate::hash::words::{read_le32, read_le64};
use crate::text::same_bytes;

verus! {

/// What reading a part of a file comes to.
pub enum Read<T> {
    Got(T),
    /// The file has no such part.
    Missing,
    /// The file contradicts itself: a header is too short for its fields, or a
    /// position does not fit in 64 bits.
    Broken,
}

/// The bytes from `start` up to `end`.
pub open spec fn bytes_between(data: Seq<u8>, start: nat, end: nat) -> Read<Seq<u8>> {
    if end > u64::MAX {
        Read::Broken
    } else if start > end || end > data.len() {
        Read::Missing
    } else {
        Read::Got(data.subrange(start as int, end as int))
    }
}

/// The number that two bytes at `p` write.
pub open spec fn le16(s: Seq<u8>, p: int) -> nat {
    (s[p] + 0x100 * s[p + 1]) as nat
}

/// Where the table of section headers begins.
pub open spec fn table_start(data: Seq<u8>) -> nat {
    words::le64(data, 40) as nat
}

/// The length of one section header.
pub open spec fn header_len(data: Seq<u8>) -> nat {
    le16(data, 58)
}

/// The header of a section.
pub open spec fn header(data: Seq<u8>, i: nat) -> Read<Seq<u8>> {
    bytes_between(
        data,
        table_start(data) + i * header_len(data),
        table_start(data) + (i + 1) * header_len(data),
    )
}

/// The bytes of the section that a header describes.
pub open spec fn content(data: Seq<u8>, h: Seq<u8>) -> Read<Seq<u8>> {
    let start = words::le64(h, 24) as nat;
    bytes_between(data, start, start + words::le64(h, 32) as nat)
}

/// The index of the first zero; the length where there is none.
pub open spec fn zero_at(s: Seq<u8>) -> int
    decreases s.len(),
{
    if s.len() == 0 || s[0] == 0 {
        0
    } else {
        1 + zero_at(s.skip(1))
    }
}

/// The name that begins at `off` in a table of names and ends before a zero.
pub open spec fn name_at(table: Seq<u8>, off: nat) -> Option<Seq<u8>> {
    if off > table.len() {
        None
    } else {
        let tail = table.skip(off as int);
        if zero_at(tail) < tail.len() {
            Some(tail.take(zero_at(tail)))
        } else {
            None
        }
    }
}

/// Where the symbols are: what their section and its table of names hold.
pub struct Symbols {
    /// Where the section begins.
    pub start: nat,
    pub size: nat,
    /// The distance from one symbol to the next.
    pub step: nat,
    pub names: Seq<u8>,
}

/// The value of the first symbol with a name, from the position `off` in the
/// section on.
pub open spec fn symbol_from(data: Seq<u8>, t: Symbols, name: Seq<u8>, off: nat) -> Read<u64>
    decreases (if off < t.size { t.size - off } else { 0 }),
    when t.step > 0
{
    if off + 24 > u64::MAX {
        Read::Broken
    } else if off + 24 > t.size {
        Read::Missing
    } else {
        match bytes_between(data, t.start + off, t.start + off + 24) {
            Read::Broken => Read::Broken,
            Read::Missing => Read::Missing,
            Read::Got(sym) => match name_at(t.names, words::le32(sym, 0) as nat) {
                None => Read::Missing,
                Some(n) => if n == name {
                    Read::Got(words::le64(sym, 8))
                } else if off + t.step > u64::MAX {
                    Read::Broken
                } else {
                    symbol_from(data, t, name, off + t.step)
                },
            },
        }
    }
}

/// The name of the section with the symbols.
pub open spec fn symtab_name() -> Seq<u8> {
    seq![46u8, 115u8, 121u8, 109u8, 116u8, 97u8, 98u8]
}

/// Whether a header describes the section with the symbols.
pub open spec fn is_symtab(h: Seq<u8>, section_names: Seq<u8>) -> bool {
    words::le32(h, 4) == 2 && name_at(section_names, words::le32(h, 0) as nat) == Some(
        symtab_name(),
    )
}

/// The symbols of the section that a header describes.
pub open spec fn symbols_of(data: Seq<u8>, h: Seq<u8>) -> Read<Symbols> {
    if h.len() < 64 {
        Read::Broken
    } else {
        match header(data, words::le32(h, 40) as nat) {
            Read::Broken => Read::Broken,
            Read::Missing => Read::Missing,
            Read::Got(names_header) => match content(data, names_header) {
                Read::Broken => Read::Broken,
                Read::Missing => Read::Missing,
                Read::Got(names) => {
                    let entry = words::le64(h, 56) as nat;
                    Read::Got(
                        Symbols {
                            start: words::le64(h, 24) as nat,
                            size: words::le64(h, 32) as nat,
                            step: if entry > 24 {
                                entry
                            } else {
                                24
                            },
                            names,
                        },
                    )
                },
            },
        }
    }
}

/// The symbols of the file: those of the first section, from the one with the
/// number `i` on, that holds symbols.
pub open spec fn symbols_from(data: Seq<u8>, section_names: Seq<u8>, i: nat) -> Read<Symbols>
    decreases le16(data, 60) - i,
{
    if i >= le16(data, 60) {
        Read::Missing
    } else {
        match header(data, i) {
            Read::Broken => Read::Broken,
            Read::Missing => Read::Missing,
            Read::Got(h) => if h.len() < 8 {
                Read::Broken
            } else if is_symtab(h, section_names) {
                symbols_of(data, h)
            } else {
                symbols_from(data, section_names, i + 1)
            },
        }
    }
}

/// The symbols of a file.
pub open spec fn symbols_in(data: Seq<u8>) -> Read<Symbols> {
    if data.len() < 64 || data[4] != 2 {
        Read::Missing
    } else {
        match header(data, le16(data, 62)) {
            Read::Broken => Read::Broken,
            Read::Missing => Read::Missing,
            Read::Got(h) => if h.len() < 40 {
                Read::Broken
            } else {
                match content(data, h) {
                    Read::Broken => Read::Broken,
                    Read::Missing => Read::Missing,
                    Read::Got(section_names) => symbols_from(data, section_names, 0),
                }
            },
        }
    }
}

/// The value of the first symbol of a file with a name.
pub open spec fn symbol_in(data: Seq<u8>, name: Seq<u8>) -> Read<u64> {
    match symbols_in(data) {
        Read::Broken => Read::Broken,
        Read::Missing => Read::Missing,
        Read::Got(t) => symbol_from(data, t, name, 0),
    }
}

/// What reading bytes comes to, seen as what reading a part of a file comes
/// to.
pub open spec fn read_view(r: Read<&[u8]>) -> Read<Seq<u8>> {
    match r {
        Read::Got(b) => Read::Got(b@),
        Read::Missing => Read::Missing,
        Read::Broken => Read::Broken,
    }
}

fn read_between<'a>(data: &'a [u8], start: u64, len: u64) -> (r: Read<&'a [u8]>)
    ensures
        read_view(r) == bytes_between(data@, start as nat, (start + len) as nat),
{
    match start.checked_add(len) {
        None => Read::Broken,
        Some(end) => if end > data.len() as u64 {
            Read::Missing
        } else {
            Read::Got(slice_subrange(data, start as usize, end as usize))
        },
    }
}

fn read_le16(s: &[u8], p: usize) -> (r: u64)
    requires
        p + 2 <= s@.len(),
    ensures
        r == le16(s@, p as int),
        r <= 0xffff,
{
    assert(s.len() <= usize::MAX);
    s[p] as u64 + 0x100 * (s[p + 1] as u64)
}

fn read_header<'a>(data: &'a [u8], i: u64) -> (r: Read<&'a [u8]>)
    requires
        data@.len() >= 64,
        i <= 0xffff_ffff,
    ensures
        read_view(r) == header(data@, i as nat),
        r matches Read::Got(h) ==> h@.len() == header_len(data@),
{
    let len: u64 = read_le16(data, 58);
    assert(i * len <= 0xffff_ffff * 0xffff) by (nonlinear_arith)
        requires
            i <= 0xffff_ffff,
            len <= 0xffff,
    ;
    assert((i + 1) * len == i * len + len) by (nonlinear_arith);
    let start: u64 = read_le64(data, 40);
    match start.checked_add(i * len) {
        None => Read::Broken,
        Some(from) => read_between(data, from, len),
    }
}

fn read_content<'a>(data: &'a [u8], h: &[u8]) -> (r: Read<&'a [u8]>)
    requires
        h@.len() >= 40,
    ensures
        read_view(r) == content(data@, h@),
{
    read_between(data, read_le64(h, 24), read_le64(h, 32))
}

fn find_zero(s: &[u8]) -> (r: usize)
    ensures
        r == zero_at(s@),
        r <= s@.len(),
{
    let mut i: usize = 0;
    assert(s@.skip(0) =~= s@);
    while i < s.len() && s[i] != 0
        invariant
            i <= s@.len(),
            zero_at(s@) == i + zero_at(s@.skip(i as int)),
        decreases s@.len() - i,
    {
        assert(s@.skip(i as int).skip(1) =~= s@.skip(i + 1));
        i += 1;
    }
    i
}

fn read_name<'a>(table: &'a [u8], off: u64) -> (r: Option<&'a [u8]>)
    ensures
        match r {
            Some(n) => name_at(table@, off as nat) == Some(n@),
            None => name_at(table@, off as nat) is None,
        },
{
    if off > table.len() as u64 {
        return None;
    }
    let tail = slice_subrange(table, off as usize, table.len());
    assert(tail@ =~= table@.skip(off as int));
    let end: usize = find_zero(tail);
    if end < tail.len() {
        let n = slice_subrange(tail, 0, end);
        assert(n@ =~= tail@.take(end as int));
        Some(n)
    } else {
        None
    }
}

fn read_is_symtab(h: &[u8], section_names: &[u8]) -> (r: bool)
    requires
        h@.len() >= 8,
    ensures
        r == is_symtab(h@, section_names@),
{
    if read_le32(h, 4) != 2 {
        return false;
    }
    match read_name(section_names, read_le32(h, 0) as u64) {
        Some(n) => {
            let wanted: [u8; 7] = [46, 115, 121, 109, 116, 97, 98];
            assert(wanted@ =~= symtab_name());
            same_bytes(n, wanted.as_slice())
        },
        None => false,
    }
}

/// The symbols of a file, with the table of their names.
struct Table<'a> {
    start: u64,
    size: u64,
    step: u64,
    names: &'a [u8],
}

spec fn table_view(r: Read<Table>) -> Read<Symbols> {
    match r {
        Read::Got(t) => Read::Got(
            Symbols {
                start: t.start as nat,
                size: t.size as nat,
                step: t.step as nat,
                names: t.names@,
            },
        ),
        Read::Missing => Read::Missing,
        Read::Broken => Read::Broken,
    }
}

fn read_symbols_of<'a>(data: &'a [u8], h: &[u8]) -> (r: Read<Table<'a>>)
    requires
        data@.len() >= 64,
        h@.len() == header_len(data@),
    ensures
        table_view(r) == symbols_of(data@, h@),
        r matches Read::Got(t) ==> t.step >= 24,
{
    if h.len() < 64 {
        return Read::Broken;
    }
    match read_header(data, read_le32(h, 40) as u64) {
        Read::Broken => Read::Broken,
        Read::Missing => Read::Missing,
        Read::Got(names_header) => match read_content(data, names_header) {
            Read::Broken => Read::Broken,
            Read::Missing => Read::Missing,
            Read::Got(names) => {
                let entry: u64 = read_le64(h, 56);
                let step: u64 = if entry > 24 {
                    entry
                } else {
                    24
                };
                Read::Got(Table { start: read_le64(h, 24), size: read_le64(h, 32), step, names })
            },
        },
    }
}

fn read_symbols<'a>(data: &'a [u8]) -> (r: Read<Table<'a>>)
    ensures
        table_view(r) == symbols_in(data@),
        r matches Read::Got(t) ==> t.step >= 24,
{
    if data.len() < 64 || data[4] != 2 {
        return Read::Missing;
    }
    let h = match read_header(data, read_le16(data, 62)) {
        Read::Broken => {
            return Read::Broken;
        },
        Read::Missing => {
            return Read::Missing;
        },
        Read::Got(h) => h,
    };
    if h.len() < 40 {
        return Read::Broken;
    }
    let section_names = match read_content(data, h) {
        Read::Broken => {
            return Read::Broken;
        },
        Read::Missing => {
            return Read::Missing;
        },
        Read::Got(s) => s,
    };
    let count: u64 = read_le16(data, 60);
    let mut i: u64 = 0;
    while i < count
        invariant
            i <= count <= 0xffff,
            count == le16(data@, 60),
            data@.len() >= 64,
            symbols_in(data@) == symbols_from(data@, section_names@, i as nat),
        decreases count - i,
    {
        match read_header(data, i) {
            Read::Broken => {
                return Read::Broken;
            },
            Read::Missing => {
                return Read::Missing;
            },
            Read::Got(h) => {
                if h.len() < 8 {
                    return Read::Broken;
                }
                if read_is_symtab(h, section_names) {
                    return read_symbols_of(data, h);
                }
            },
        }
        i += 1;
    }
    Read::Missing
}

/// Looks up the value of a symbol of a shared library by its name; a file that
/// contradicts itself is told from one without the symbol.
pub fn symtab_lookup_checked(data: &[u8], name: &[u8]) -> (r: Read<u64>)
    ensures
        r == symbol_in(data@, name@),
{
    let t = match read_symbols(data) {
        Read::Broken => {
            return Read::Broken;
        },
        Read::Missing => {
            return Read::Missing;
        },
        Read::Got(t) => t,
    };
    let ghost table = Symbols {
        start: t.start as nat,
        size: t.size as nat,
        step: t.step as nat,
        names: t.names@,
    };
    let mut off: u64 = 0;
    loop
        invariant
            t.step >= 24,
            table == (Symbols {
                start: t.start as nat,
                size: t.size as nat,
                step: t.step as nat,
                names: t.names@,
            }),
            symbol_in(data@, name@) == symbol_from(data@, table, name@, off as nat),
        decreases u64::MAX - off,
    {
        match off.checked_add(24) {
            None => {
                return Read::Broken;
            },
            Some(end) => {
                if end > t.size {
                    return Read::Missing;
                }
            },
        }
        let from: u64 = match t.start.checked_add(off) {
            None => {
                return Read::Broken;
            },
            Some(from) => from,
        };
        let sym = match read_between(data, from, 24) {
            Read::Broken => {
                return Read::Broken;
            },
            Read::Missing => {
                return Read::Missing;
            },
            Read::Got(sym) => sym,
        };
        match read_name(t.names, read_le32(sym, 0) as u64) {
            None => {
                return Read::Missing;
            },
            Some(n) => {
                if same_bytes(n, name) {
                    return Read::Got(read_le64(sym, 8));
                }
            },
        }
        match off.checked_add(t.step) {
            None => {
                return Read::Broken;
            },
            Some(next) => {
                off = next;
            },
        }
    }
}

/// Looks up the value of a symbol of a shared library by its name.
pub fn symtab_lookup(data: &[u8], name: &[u8]) -> (r: Option<u64>)
    requires
        symbol_in(data@, name@) !is Broken,
    ensures
        match r {
            Some(v) => symbol_in(data@, name@) == Read::Got(v),
            None => symbol_in(data@, name@) is Missing,
        },
{
    match symtab_lookup_checked(data, name) {
        Read::Got(v) => Some(v),
        _ => None,
    }
}

/// Whether a symbol of a table has a name and a value.
pub open spec fn holds_symbol(data: Seq<u8>, t: Symbols, off: nat, name: Seq<u8>, v: u64) -> bool {
    &&& off + 24 <= t.size
    &&& t.start + off + 24 <= data.len()
    &&& ({
        let sym = data.subrange(t.start as int + off, t.start as int + off + 24);
        name_at(t.names, words::le32(sym, 0) as nat) == Some(name) && words::le64(sym, 8) == v
    })
}

proof fn lemma_found_from(data: Seq<u8>, t: Symbols, name: Seq<u8>, off: nat, v: u64) -> (at: nat)
    requires
        t.step > 0,
        symbol_from(data, t, name, off) == Read::Got(v),
    ensures
        holds_symbol(data, t, at, name, v),
    decreases (if off < t.size { t.size - off } else { 0 }),
{
    let sym = data.subrange(t.start as int + off, t.start as int + off + 24);
    if name_at(t.names, words::le32(sym, 0) as nat) == Some(name) {
        off
    } else {
        lemma_found_from(data, t, name, off + t.step, v)
    }
}

/// A value that is found is that of a symbol of the file with the name that
/// was asked for.
pub proof fn law_found_is_symbol(data: Seq<u8>, name: Seq<u8>, v: u64)
    requires
        symbol_in(data, name) == Read::Got(v),
    ensures
        symbols_in(data) matches Read::Got(t) && exists|off: nat|
            holds_symbol(data, t, off, name, v),
{
    let t = symbols_in(data)->Got_0;
    lemma_step(data);
    let at = lemma_found_from(data, t, name, 0, v);
    assert(holds_symbol(data, t, at, name, v));
}

proof fn lemma_step_from(data: Seq<u8>, section_names: Seq<u8>, i: nat)
    ensures
        symbols_from(data, section_names, i) matches Read::Got(t) ==> t.step >= 24,
    decreases le16(data, 60) - i,
{
    if i < le16(data, 60) {
        lemma_step_from(data, section_names, i + 1);
    }
}

proof fn lemma_step(data: Seq<u8>)
    ensures
        symbols_in(data) matches Read::Got(t) ==> t.step >= 24,
{
    if data.len() >= 64 && data[4] == 2 {
        if let Read::Got(h) = header(data, le16(data, 62)) {
            if let Read::Got(names) = content(data, h) {
                lemma_step_from(data, names, 0);
            }
        }
    }
}

/// A name ends before the first zero behind it, and nothing in front of where it
/// begins counts.
pub proof fn law_name_at(front: Seq<u8>, name: Seq<u8>, rest: Seq<u8>)
    requires
        !name.contains(0u8),
    ensures
        name_at(front + name + seq![0u8] + rest, front.len()) == Some(name),
        name_at(front + name, front.len()) is None,
{
    let t = front + name + seq![0u8] + rest;
    let tail = name + seq![0u8] + rest;
    assert(t.skip(front.len() as int) =~= tail);
    lemma_zero_at(name, rest);
    assert(tail.take(name.len() as int) =~= name);
    let u = front + name;
    assert(u.skip(front.len() as int) =~= name);
}

proof fn lemma_zero_at(name: Seq<u8>, rest: Seq<u8>)
    requires
        !name.contains(0u8),
    ensures
        zero_at(name + seq![0u8] + rest) == name.len(),
        zero_at(name) == name.len(),
    decreases name.len(),
{
    let s = name + seq![0u8] + rest;
    if name.len() > 0 {
        let less = name.skip(1);
        assert(name.contains(name[0]));
        assert(!less.contains(0u8)) by {
            if less.contains(0u8) {
                let i = choose|i: int| 0 <= i < less.len() && less[i] == 0u8;
                assert(name[i + 1] == 0u8);
            }
        }
        lemma_zero_at(less, rest);
        assert(s.skip(1) =~= less + seq![0u8] + rest);
        assert(s[0] == name[0]);
    } else {
        assert(s[0] == 0);
    }
}

/// Symbols are looked at one after the other, and the first one with the name is
/// found: where a symbol has the name its value is what is read, and where it
/// has another name the search goes on with the next one.
pub proof fn law_first_symbol_found(
    data: Seq<u8>,
    t: Symbols,
    off: nat,
    has: Seq<u8>,
    v: u64,
    name: Seq<u8>,
)
    requires
        t.step >= 24,
        data.len() <= usize::MAX,
        holds_symbol(data, t, off, has, v),
    ensures
        has == name ==> symbol_from(data, t, name, off) == Read::Got(v),
        has != name && off + t.step <= u64::MAX ==> symbol_from(data, t, name, off) == symbol_from(
            data,
            t,
            name,
            off + t.step,
        ),
{
    assert(usize::MAX <= u64::MAX);
}

/// The number that eight bytes write, the least significant first.
pub open spec fn eight_bytes(s: Seq<u8>, p: int) -> int {
    s[p] + 0x100 * s[p + 1] + 0x1_0000 * s[p + 2] + 0x100_0000 * s[p + 3] + 0x1_0000_0000 * (s[p + 4]
        + 0x100 * s[p + 5] + 0x1_0000 * s[p + 6] + 0x100_0000 * s[p + 7])
}

/// Where a file says where its sections are: the place of their headers stands
/// at byte 40, the length of one at byte 58, and header `i` is that many bytes.
pub proof fn law_section_headers(data: Seq<u8>, i: nat)
    requires
        data.len() >= 64,
    ensures
        table_start(data) == eight_bytes(data, 40),
        header_len(data) == data[58] + 0x100 * data[59],
        header(data, i) matches Read::Got(h) ==> ({
            let at = eight_bytes(data, 40) + i * (data[58] + 0x100 * data[59]);
            &&& h.len() == data[58] + 0x100 * data[59]
            &&& at + h.len() <= data.len()
            &&& h == data.subrange(at, at + h.len())
        }),
{
    let len = header_len(data);
    assert((i + 1) * len == i * len + len) by (nonlinear_arith);
    assert(i * len >= 0) by (nonlinear_arith);
}

/// What the header of a section says: its name and its type stand at the front,
/// where its bytes are and how many at bytes 24 and 32, and of symbols the number
/// of the section with their names at byte 40 and the length of one at byte 56,
/// which is no less than a symbol needs. The section with the symbols has the
/// type 2 and its own name.
pub proof fn law_section_header(data: Seq<u8>, h: Seq<u8>, names: Seq<u8>)
    requires
        h.len() >= 64,
    ensures
        is_symtab(h, names) <==> {
            &&& h[4] == 2 && h[5] == 0 && h[6] == 0 && h[7] == 0
            &&& name_at(
                names,
                (h[0] + 0x100 * h[1] + 0x1_0000 * h[2] + 0x100_0000 * h[3]) as nat,
            ) matches Some(n)
            &&& n.map_values(|b: u8| b as char) == seq!['.', 's', 'y', 'm', 't', 'a', 'b']
        },
        symbols_of(data, h) matches Read::Got(t) ==> {
            &&& t.start == eight_bytes(h, 24)
            &&& t.size == eight_bytes(h, 32)
            &&& t.step >= 24
            &&& eight_bytes(h, 56) >= 24 ==> t.step == eight_bytes(h, 56)
            &&& header(
                data,
                (h[40] + 0x100 * h[41] + 0x1_0000 * h[42] + 0x100_0000 * h[43]) as nat,
            ) matches Read::Got(nh)
            &&& content(data, nh) == Read::Got(t.names)
        },
        content(data, h) matches Read::Got(c) ==> {
            &&& c.len() == eight_bytes(h, 32)
            &&& eight_bytes(h, 24) + eight_bytes(h, 32) <= data.len()
            &&& c == data.subrange(eight_bytes(h, 24), eight_bytes(h, 24) + eight_bytes(h, 32))
        },
{
    let dot = seq!['.', 's', 'y', 'm', 't', 'a', 'b'];
    assert(symtab_name().map_values(|b: u8| b as char) =~= dot);
    assert(words::le32(h, 4) == 2 <==> h[4] == 2 && h[5] == 0 && h[6] == 0 && h[7] == 0);
    match name_at(names, words::le32(h, 0) as nat) {
        Some(n) => {
            let m = n.map_values(|b: u8| b as char);
            if m == dot {
                assert(n.len() == 7);
                assert forall|i: int| 0 <= i < 7 implies n[i] == symtab_name()[i] by {
                    assert(m[i] == dot[i]);
                    assert(m[i] == n[i] as char);
                    assert(symtab_name()[i] as char == dot[i]);
                }
                assert(n =~= symtab_name());
            }
        },
        None => {},
    }
}

} // verus!
