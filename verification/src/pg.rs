//! Connections to PostgreSQL for Ruby programs: where its library is, how
//! parameters are written, and how values are read.
use vstd::prelude::*;
use vstd::slice::slice_subrange;
use crate::number;
use crate::number::parse_i64;
use crate::path;
use crate::path::{join_path, parent, relate_text, Rel};
use crate::protocol::request;
use crate::text;
use crate::text::{chars_of, same_bytes, string_of, strip_prefix, trim_end};
use crate::utf8;
use crate::utf8::text_of;

verus! {

// Where the library is.

/// The directory with the sources from which the library was built next to a
/// Ruby.
pub open spec fn sources_of(ruby: Seq<char>) -> Option<Seq<char>> {
    match path::parent_of(ruby) {
        None => None,
        Some(bin) => match path::parent_of(bin) {
            None => None,
            Some(home) => match path::parent_of(home) {
                None => None,
                Some(vendor) => Some(path::joined_path(vendor, "src"@)),
            },
        },
    }
}

/// The directory with the sources from which the library was built next to a
/// Ruby.
pub fn sources_dir(ruby: &str) -> (r: Option<String>)
    ensures
        match r {
            Some(d) => sources_of(ruby@) == Some(d@),
            None => sources_of(ruby@) is None,
        },
{
    match parent(ruby) {
        None => None,
        Some(bin) => match parent(bin.as_str()) {
            None => None,
            Some(home) => match parent(home.as_str()) {
                None => None,
                Some(vendor) => Some(join_path(vendor.as_str(), "src")),
            },
        },
    }
}

/// The texts with one more: it stands before the first that comes after it.
pub open spec fn placed(list: Seq<Seq<char>>, t: Seq<char>) -> Seq<Seq<char>>
    decreases list.len(),
{
    if list.len() == 0 {
        seq![t]
    } else if path::text_before(t, list[0]) {
        seq![t] + list
    } else {
        seq![list[0]] + placed(list.skip(1), t)
    }
}

/// The names among those of a directory that are of PostgreSQL, in their
/// order.
pub open spec fn versions_in(names: Seq<Seq<char>>) -> Seq<Seq<char>>
    decreases names.len(),
{
    if names.len() == 0 {
        Seq::empty()
    } else if text::has_prefix(names.last(), "postgresql-"@) {
        placed(versions_in(names.drop_last()), names.last())
    } else {
        versions_in(names.drop_last())
    }
}

/// Whether no text comes before one that stands before it.
pub open spec fn ascending(list: Seq<Seq<char>>) -> bool {
    forall|i: int, j: int|
        0 <= i < j < list.len() ==> !path::text_before(#[trigger] list[j], #[trigger] list[i])
}

proof fn lemma_placed_at(list: Seq<Seq<char>>, t: Seq<char>, at: int)
    requires
        0 <= at <= list.len(),
        forall|k: int| 0 <= k < at ==> !path::text_before(t, #[trigger] list[k]),
        at < list.len() ==> path::text_before(t, list[at]),
    ensures
        placed(list, t) == list.insert(at, t),
    decreases list.len(),
{
    if at > 0 {
        let rest = list.skip(1);
        assert forall|k: int| 0 <= k < at - 1 implies !path::text_before(t, #[trigger] rest[k]) by {
            assert(rest[k] == list[k + 1]);
        }
        lemma_placed_at(rest, t, at - 1);
        assert(seq![list[0]] + rest.insert(at - 1, t) =~= list.insert(at, t));
    } else if list.len() > 0 {
        assert(seq![t] + list =~= list.insert(0, t));
    } else {
        assert(seq![t] =~= list.insert(0, t));
    }
}

proof fn lemma_placed_ascends(list: Seq<Seq<char>>, t: Seq<char>)
    requires
        ascending(list),
    ensures
        ascending(placed(list, t)),
        placed(list, t).to_multiset() == list.to_multiset().insert(t),
    decreases list.len(),
{
    broadcast use vstd::seq_lib::group_to_multiset_ensures;

    let r = placed(list, t);
    if list.len() == 0 {
        assert(r =~= list.push(t));
    } else if path::text_before(t, list[0]) {
        assert(r =~= list.insert(0, t));
        assert forall|i: int, j: int| 0 <= i < j < r.len() implies !path::text_before(
            #[trigger] r[j],
            #[trigger] r[i],
        ) by {
            if i > 0 {
                assert(r[i] == list[i - 1] && r[j] == list[j - 1]);
            } else {
                let x = r[j];
                assert(x == list[j - 1]);
                if path::text_before(x, t) {
                    path::lemma_text_transitive(x, t, list[0]);
                    if j == 1 {
                        path::lemma_text_total(x, x);
                    }
                }
            }
        }
        vstd::seq_lib::to_multiset_insert(list, 0, t);
    } else {
        let rest = list.skip(1);
        assert forall|i: int, j: int| 0 <= i < j < rest.len() implies !path::text_before(
            #[trigger] rest[j],
            #[trigger] rest[i],
        ) by {
            assert(rest[i] == list[i + 1] && rest[j] == list[j + 1]);
        }
        lemma_placed_ascends(rest, t);
        let p = placed(rest, t);
        assert forall|i: int, j: int| 0 <= i < j < r.len() implies !path::text_before(
            #[trigger] r[j],
            #[trigger] r[i],
        ) by {
            assert(r[j] == p[j - 1]);
            if i > 0 {
                assert(r[i] == p[i - 1]);
            } else {
                assert(p.to_multiset().contains(p[j - 1]));
                if p[j - 1] != t {
                    assert(rest.to_multiset().contains(p[j - 1]));
                    assert(rest.contains(p[j - 1]));
                    let k = choose|k: int| 0 <= k < rest.len() && rest[k] == p[j - 1];
                    assert(rest[k] == list[k + 1]);
                }
            }
        }
        assert(list =~= seq![list[0]] + rest);
        vstd::seq_lib::lemma_multiset_commutative(seq![list[0]], rest);
        vstd::seq_lib::lemma_multiset_commutative(seq![list[0]], p);
        assert(r.to_multiset() =~= list.to_multiset().insert(t));
    }
}

/// The names of a directory that are of PostgreSQL come out in their order, and
/// each as often as it stands there.
pub proof fn law_versions_ordered(names: Seq<Seq<char>>)
    ensures
        ascending(versions_in(names)),
        versions_in(names).to_multiset() == names.filter(
            |n: Seq<char>| text::has_prefix(n, "postgresql-"@),
        ).to_multiset(),
    decreases names.len(),
{
    broadcast use vstd::seq_lib::group_to_multiset_ensures;

    let keep = |n: Seq<char>| text::has_prefix(n, "postgresql-"@);
    reveal(Seq::filter);
    if names.len() > 0 {
        law_versions_ordered(names.drop_last());
        if keep(names.last()) {
            lemma_placed_ascends(versions_in(names.drop_last()), names.last());
            assert(names.filter(keep) == names.drop_last().filter(keep).push(names.last()));
        }
    } else {
        assert(names.filter(keep) =~= versions_in(names));
    }
}

/// Where the library of a version is.
pub open spec fn library_of(sources: Seq<char>, version: Seq<char>) -> Seq<char> {
    path::joined_path(
        path::joined_path(path::joined_path(path::joined_path(sources, version), "install"@), "lib"@),
        "libpq.so.5"@,
    )
}

/// Where the libraries that were built can be.
pub fn vendored_libraries(sources: &str, names: &Vec<String>) -> (r: Vec<String>)
    ensures
        text::views(r@) == versions_in(text::views(names@)).map_values(
            |n: Seq<char>| library_of(sources@, n),
        ),
{
    let ghost all = text::views(names@);
    let mut versions: Vec<String> = Vec::new();
    let mut i: usize = 0;
    assert(text::views(versions@) =~= versions_in(all.take(0)));
    while i < names.len()
        invariant
            i <= names@.len(),
            all == text::views(names@),
            text::views(versions@) == versions_in(all.take(i as int)),
        decreases names@.len() - i,
    {
        assert(all.take(i + 1).drop_last() =~= all.take(i as int));
        assert(all.take(i + 1).last() == names@[i as int]@);
        let c = chars_of(names[i].as_str());
        if strip_prefix(c.as_slice(), "postgresql-").is_some() {
            place(&mut versions, names[i].as_str());
        }
        i += 1;
    }
    assert(all.take(i as int) =~= all);
    let ghost ordered = versions_in(all);
    let mut r: Vec<String> = Vec::new();
    let mut k: usize = 0;
    while k < versions.len()
        invariant
            k <= versions@.len(),
            text::views(versions@) == ordered,
            text::views(r@) == ordered.take(k as int).map_values(
                |n: Seq<char>| library_of(sources@, n),
            ),
        decreases versions@.len() - k,
    {
        let ghost before = text::views(r@);
        let p = join_path(
            join_path(
                join_path(join_path(sources, versions[k].as_str()).as_str(), "install").as_str(),
                "lib",
            ).as_str(),
            "libpq.so.5",
        );
        assert(ordered[k as int] == versions@[k as int]@);
        let ghost this = p@;
        r.push(p);
        assert(text::views(r@) =~= before.push(this));
        assert(ordered.take(k + 1) =~= ordered.take(k as int).push(ordered[k as int]));
        assert(text::views(r@) =~= ordered.take(k + 1).map_values(
            |n: Seq<char>| library_of(sources@, n),
        ));
        k += 1;
    }
    assert(ordered.take(k as int) =~= ordered);
    r
}

fn place(list: &mut Vec<String>, t: &str)
    ensures
        text::views(final(list)@) == placed(text::views(old(list)@), t@),
{
    let ghost before = text::views(list@);
    let c = chars_of(t);
    let mut i: usize = 0;
    while i < list.len() && relate_text(
        c.as_slice(),
        chars_of(list[i].as_str()).as_slice(),
    ) != Rel::Before
        invariant
            i <= list@.len(),
            c@ == t@,
            before == text::views(list@),
            forall|k: int| 0 <= k < i ==> !path::text_before(t@, #[trigger] before[k]),
        decreases list@.len() - i,
    {
        assert(before[i as int] == list@[i as int]@);
        proof {
            path::lemma_text_total(t@, before[i as int]);
        }
        i += 1;
    }
    proof {
        if i < before.len() {
            assert(before[i as int] == list@[i as int]@);
        }
        lemma_placed_at(before, t@, i as int);
    }
    list.insert(i, t.to_string());
    assert(text::views(list@) =~= before.insert(i as int, t@));
}

/// The places where the library is looked for: first the one that is named,
/// then the system's, then those that were built.
pub fn pq_candidates(own: Option<&str>, built: &Vec<String>) -> (r: Vec<String>)
    ensures
        text::views(r@) == (match own {
            Some(p) if p@.len() > 0 => seq![p@],
            _ => Seq::empty(),
        }) + seq!["libpq.so.5"@, "libpq.so"@] + text::views(built@),
{
    let mut r: Vec<String> = Vec::new();
    match own {
        Some(p) => {
            if chars_of(p).len() > 0 {
                r.push(p.to_string());
            }
        },
        None => {},
    }
    let ghost first = text::views(r@);
    assert(first =~= (match own {
        Some(p) if p@.len() > 0 => seq![p@],
        _ => Seq::empty(),
    }));
    r.push("libpq.so.5".to_string());
    r.push("libpq.so".to_string());
    assert(text::views(r@) =~= first + seq!["libpq.so.5"@, "libpq.so"@]);
    crate::commands::run::extend(&mut r, built);
    r
}

// How parameters are written.

/// Whether a value of a connection parameter has to be quoted on account of a
/// character.
pub open spec fn is_special(c: char) -> bool {
    c == ' ' || c == '\'' || c == '"' || c == '\\' || (c as u32) < 0x20 || 0x7f <= (c as u32) < 0xa0
}

/// Whether a value of a connection parameter has to be quoted.
pub open spec fn needs_quotes(v: Seq<char>) -> bool {
    v.len() == 0 || exists|i: int| 0 <= i < v.len() && is_special(#[trigger] v[i])
}

/// A value with a backslash before each quote and each backslash.
pub open spec fn escaped(v: Seq<char>) -> Seq<char>
    decreases v.len(),
{
    if v.len() == 0 {
        Seq::empty()
    } else if v.last() == '\'' || v.last() == '\\' {
        escaped(v.drop_last()).push('\\').push(v.last())
    } else {
        escaped(v.drop_last()).push(v.last())
    }
}

/// A value of a connection parameter, as it is written.
pub open spec fn quoted(v: Seq<char>) -> Seq<char> {
    if needs_quotes(v) {
        seq!['\''] + escaped(v) + seq!['\'']
    } else {
        v
    }
}

/// Writes a value of a connection parameter.
pub fn conninfo_quote(v: &str) -> (r: String)
    ensures
        r@ == quoted(v@),
{
    let c = chars_of(v);
    let mut needs = c.len() == 0;
    let mut i: usize = 0;
    while i < c.len() && !needs
        invariant
            i <= c@.len(),
            c@ == v@,
            needs ==> needs_quotes(v@),
            !needs ==> c@.len() > 0,
            !needs ==> forall|j: int| 0 <= j < i ==> !is_special(#[trigger] v@[j]),
        decreases c@.len() - i,
    {
        let x = c[i];
        let code: u32 = x as u32;
        if x == ' ' || x == '\'' || x == '"' || x == '\\' || code < 0x20 || (0x7f <= code && code
            < 0xa0) {
            assert(is_special(v@[i as int]));
            needs = true;
        }
        i += 1;
    }
    if !needs {
        return v.to_string();
    }
    let mut out: Vec<char> = Vec::new();
    out.push('\'');
    let mut k: usize = 0;
    assert(v@.take(0) =~= Seq::<char>::empty());
    while k < c.len()
        invariant
            k <= c@.len(),
            c@ == v@,
            out@ == seq!['\''] + escaped(v@.take(k as int)),
        decreases c@.len() - k,
    {
        assert(v@.take(k + 1).drop_last() =~= v@.take(k as int));
        assert(v@.take(k + 1).last() == c@[k as int]);
        let x = c[k];
        if x == '\'' || x == '\\' {
            out.push('\\');
        }
        out.push(x);
        assert(out@ =~= seq!['\''] + escaped(v@.take(k + 1)));
        k += 1;
    }
    assert(v@.take(k as int) =~= v@);
    out.push('\'');
    assert(out@ =~= quoted(v@));
    string_of(out.as_slice())
}

/// The parameters of a connection in one text.
pub open spec fn written(pairs: Seq<(Seq<char>, Seq<char>)>) -> Seq<char>
    decreases pairs.len(),
{
    if pairs.len() == 0 {
        Seq::empty()
    } else {
        let before = written(pairs.drop_last());
        let gap: Seq<char> = if before.len() > 0 {
            seq![' ']
        } else {
            Seq::empty()
        };
        before + gap + pairs.last().0 + seq!['='] + quoted(pairs.last().1)
    }
}

/// Writes the parameters of a connection; a text with a zero in it cannot be
/// handed on, and nothing takes its place.
pub fn conninfo(pairs: &Vec<(String, String)>) -> (r: String)
    ensures
        r@ == (if written(request::pair_views(pairs@)).contains('\0') {
            Seq::empty()
        } else {
            written(request::pair_views(pairs@))
        }),
{
    let ghost all = request::pair_views(pairs@);
    let mut out = "".to_string();
    proof {
        reveal_strlit("");
    }
    assert(out@ =~= written(all.take(0)));
    let mut i: usize = 0;
    while i < pairs.len()
        invariant
            i <= pairs@.len(),
            all == request::pair_views(pairs@),
            out@ == written(all.take(i as int)),
        decreases pairs@.len() - i,
    {
        assert(all.take(i + 1).drop_last() =~= all.take(i as int));
        assert(all.take(i + 1).last() == (pairs@[i as int].0@, pairs@[i as int].1@));
        let ghost before = out@;
        if chars_of(out.as_str()).len() > 0 {
            out.push(' ');
        }
        let ghost gap: Seq<char> = if before.len() > 0 {
            seq![' ']
        } else {
            Seq::empty()
        };
        assert(out@ =~= before + gap);
        out.append(pairs[i].0.as_str());
        out.push('=');
        out.append(conninfo_quote(pairs[i].1.as_str()).as_str());
        assert(out@ =~= before + gap + all[i as int].0 + seq!['='] + quoted(all[i as int].1));
        i += 1;
    }
    assert(all.take(i as int) =~= all);
    let c = chars_of(out.as_str());
    let mut k: usize = 0;
    while k < c.len()
        invariant
            k <= c@.len(),
            c@ == out@,
            out@ == written(all),
            all == request::pair_views(pairs@),
            forall|j: int| 0 <= j < k ==> c@[j] != '\0',
        decreases c@.len() - k,
    {
        if c[k] == '\0' {
            assert(out@[k as int] == '\0');
            proof {
                reveal_strlit("");
            }
            let none = "".to_string();
            assert(none@ =~= Seq::<char>::empty());
            return none;
        }
        k += 1;
    }
    out
}

/// What a quoted value means, and what follows it: a backslash stands before a
/// character that is meant as it is.
pub open spec fn read_quoted(s: Seq<char>) -> Option<(Seq<char>, Seq<char>)>
    decreases s.len(),
{
    if s.len() == 0 {
        None
    } else if s[0] == '\'' {
        Some((Seq::empty(), s.skip(1)))
    } else {
        let k = if s[0] == '\\' {
            1int
        } else {
            0int
        };
        if s.len() <= k {
            None
        } else {
            match read_quoted(s.skip(k + 1)) {
                None => None,
                Some((v, rest)) => Some((seq![s[k]] + v, rest)),
            }
        }
    }
}

/// What a value at the front of a text means, and what follows it: one without
/// quotes ends before a space.
pub open spec fn read_value(s: Seq<char>) -> Option<(Seq<char>, Seq<char>)> {
    if s.len() > 0 && s[0] == '\'' {
        read_quoted(s.skip(1))
    } else {
        let k = text::index_of(s, ' ');
        Some((s.take(k), s.skip(k)))
    }
}

proof fn lemma_escaped_front(v: Seq<char>)
    requires
        v.len() > 0,
    ensures
        escaped(v) == (if v[0] == '\'' || v[0] == '\\' {
            seq!['\\', v[0]]
        } else {
            seq![v[0]]
        }) + escaped(v.skip(1)),
    decreases v.len(),
{
    let front: Seq<char> = if v[0] == '\'' || v[0] == '\\' {
        seq!['\\', v[0]]
    } else {
        seq![v[0]]
    };
    if v.len() == 1 {
        assert(v.skip(1) =~= Seq::<char>::empty());
        assert(v.drop_last() =~= Seq::<char>::empty());
        assert(escaped(Seq::<char>::empty()) =~= Seq::<char>::empty());
        assert(escaped(v) =~= front + escaped(v.skip(1)));
    } else {
        lemma_escaped_front(v.drop_last());
        assert(v.drop_last().skip(1) =~= v.skip(1).drop_last());
        assert(v.skip(1).last() == v.last());
        assert(escaped(v) =~= front + escaped(v.skip(1)));
    }
}

proof fn lemma_quoted_reads_back(v: Seq<char>, rest: Seq<char>)
    ensures
        read_quoted(escaped(v) + seq!['\''] + rest) == Some((v, rest)),
    decreases v.len(),
{
    let s = escaped(v) + seq!['\''] + rest;
    if v.len() == 0 {
        assert(s =~= seq!['\''] + rest);
        assert(s.skip(1) =~= rest);
        assert(v =~= Seq::<char>::empty());
    } else {
        lemma_escaped_front(v);
        lemma_quoted_reads_back(v.skip(1), rest);
        let k = if v[0] == '\'' || v[0] == '\\' {
            1int
        } else {
            0int
        };
        assert(s[k] == v[0]);
        assert(s.skip(k + 1) =~= escaped(v.skip(1)) + seq!['\''] + rest);
        assert(seq![v[0]] + v.skip(1) =~= v);
    }
}

/// A value of a connection parameter is read back as it was: every one, with
/// nothing or a space after it.
pub proof fn law_value_reads_back(v: Seq<char>, rest: Seq<char>)
    requires
        rest.len() == 0 || rest[0] == ' ',
    ensures
        read_value(quoted(v) + rest) == Some((v, rest)),
{
    let s = quoted(v) + rest;
    if needs_quotes(v) {
        lemma_quoted_reads_back(v, rest);
        assert(s.skip(1) =~= escaped(v) + seq!['\''] + rest);
    } else {
        assert(!is_special(v[0]));
        assert(s[0] == v[0]);
        assert forall|i: int| 0 <= i < v.len() implies s[i] != ' ' by {
            assert(s[i] == v[i]);
            assert(!is_special(v[i]));
        }
        text::lemma_index_of_is(s, ' ', v.len() as int);
        assert(s.take(v.len() as int) =~= v);
        assert(s.skip(v.len() as int) =~= rest);
    }
}

/// What a text with parameters of a connection means: names, each with a value
/// after an equals sign, and a space between one and the next.
pub open spec fn read_pairs(s: Seq<char>) -> Option<Seq<(Seq<char>, Seq<char>)>>
    decreases s.len(),
    via read_pairs_ends
{
    match text::split_at_first(s, '=') {
        None => None,
        Some((name, after)) => match read_value(after) {
            None => None,
            Some((v, rest)) => if rest.len() == 0 {
                Some(seq![(name, v)])
            } else if rest[0] != ' ' {
                None
            } else {
                match read_pairs(rest.skip(1)) {
                    None => None,
                    Some(more) => Some(seq![(name, v)] + more),
                }
            },
        },
    }
}

#[via_fn]
proof fn read_pairs_ends(s: Seq<char>) {
    text::lemma_index_of(s, '=');
    if let Some((_, after)) = text::split_at_first(s, '=') {
        lemma_rest_is_shorter(after);
    }
}

proof fn lemma_quoted_is_shorter(s: Seq<char>)
    ensures
        read_quoted(s) matches Some((v, rest)) ==> rest.len() < s.len(),
    decreases s.len(),
{
    if s.len() > 0 && s[0] != '\'' {
        lemma_quoted_is_shorter(s.skip(1));
        if s[0] == '\\' && s.len() > 1 {
            lemma_quoted_is_shorter(s.skip(2));
        }
    }
}

proof fn lemma_rest_is_shorter(s: Seq<char>)
    ensures
        read_value(s) matches Some((v, rest)) ==> rest.len() <= s.len(),
{
    text::lemma_index_of(s, ' ');
    if s.len() > 0 {
        lemma_quoted_is_shorter(s.skip(1));
    }
}

spec fn pair_written(p: (Seq<char>, Seq<char>)) -> Seq<char> {
    p.0 + seq!['='] + quoted(p.1)
}

proof fn lemma_written_front(pairs: Seq<(Seq<char>, Seq<char>)>)
    requires
        pairs.len() > 0,
    ensures
        written(pairs).len() > 0,
        written(pairs) == pair_written(pairs[0]) + (if pairs.len() > 1 {
            seq![' '] + written(pairs.skip(1))
        } else {
            Seq::empty()
        }),
    decreases pairs.len(),
{
    let first = pair_written(pairs[0]);
    if pairs.len() == 1 {
        assert(pairs.drop_last() =~= Seq::<(Seq<char>, Seq<char>)>::empty());
        assert(written(pairs.drop_last()) =~= Seq::<char>::empty());
        assert(written(pairs) =~= first);
    } else {
        let front = pairs.drop_last();
        lemma_written_front(front);
        assert(front.skip(1) =~= pairs.skip(1).drop_last());
        assert(pairs.skip(1).last() == pairs.last());
        if pairs.len() > 2 {
            lemma_written_front(front.skip(1));
        } else {
            assert(front.skip(1) =~= Seq::<(Seq<char>, Seq<char>)>::empty());
            assert(written(front.skip(1)) =~= Seq::<char>::empty());
        }
        assert(written(pairs) =~= first + (seq![' '] + written(pairs.skip(1))));
    }
}

/// The parameters of a connection are read back as they were, where no name
/// holds an equals sign.
pub proof fn law_conninfo_reads_back(pairs: Seq<(Seq<char>, Seq<char>)>)
    requires
        pairs.len() > 0,
        forall|i: int| 0 <= i < pairs.len() ==> !(#[trigger] pairs[i]).0.contains('='),
    ensures
        read_pairs(written(pairs)) == Some(pairs),
    decreases pairs.len(),
{
    lemma_written_front(pairs);
    let s = written(pairs);
    let name = pairs[0].0;
    let v = pairs[0].1;
    let rest: Seq<char> = if pairs.len() > 1 {
        seq![' '] + written(pairs.skip(1))
    } else {
        Seq::empty()
    };
    assert(s =~= name + seq!['='] + (quoted(v) + rest));
    assert forall|i: int| 0 <= i < name.len() implies s[i] != '=' by {
        assert(s[i] == name[i]);
        assert(!pairs[0].0.contains('='));
    }
    text::lemma_index_of_is(s, '=', name.len() as int);
    assert(s.take(name.len() as int) =~= name);
    assert(s.skip(name.len() as int + 1) =~= quoted(v) + rest);
    law_value_reads_back(v, rest);
    if pairs.len() > 1 {
        assert forall|i: int| 0 <= i < pairs.skip(1).len() implies !(
        #[trigger] pairs.skip(1)[i]).0.contains('=') by {
            assert(pairs.skip(1)[i] == pairs[i + 1]);
        }
        law_conninfo_reads_back(pairs.skip(1));
        assert(rest.skip(1) =~= written(pairs.skip(1)));
        assert(seq![pairs[0]] + pairs.skip(1) =~= pairs);
    } else {
        assert(seq![pairs[0]] =~= pairs);
    }
}

/// A name with each double quote doubled.
pub open spec fn doubled(name: Seq<u8>) -> Seq<u8>
    decreases name.len(),
{
    if name.len() == 0 {
        Seq::empty()
    } else if name.last() == 34 {
        doubled(name.drop_last()).push(34).push(34)
    } else {
        doubled(name.drop_last()).push(name.last())
    }
}

/// Writes a name in SQL: between double quotes, with those in it doubled.
pub fn quote_ident(name: &[u8]) -> (r: Vec<u8>)
    ensures
        r@ == seq![34u8] + doubled(name@) + seq![34u8],
{
    let mut r: Vec<u8> = Vec::new();
    r.push(34);
    let mut i: usize = 0;
    assert(name@.take(0) =~= Seq::<u8>::empty());
    while i < name.len()
        invariant
            i <= name@.len(),
            r@ == seq![34u8] + doubled(name@.take(i as int)),
        decreases name@.len() - i,
    {
        assert(name@.take(i + 1).drop_last() =~= name@.take(i as int));
        assert(name@.take(i + 1).last() == name@[i as int]);
        let b = name[i];
        if b == 34 {
            r.push(34);
        }
        r.push(b);
        assert(r@ =~= seq![34u8] + doubled(name@.take(i + 1)));
        i += 1;
    }
    assert(name@.take(i as int) =~= name@);
    r.push(34);
    assert(r@ =~= seq![34u8] + doubled(name@) + seq![34u8]);
    r
}

/// What the inside of a quoted name means: two double quotes mean one, and one
/// alone cannot stand there.
pub open spec fn read_ident(s: Seq<u8>) -> Option<Seq<u8>>
    decreases s.len(),
{
    if s.len() == 0 {
        Some(Seq::empty())
    } else if s.last() == 34 {
        if s.len() >= 2 && s[s.len() - 2] == 34 {
            match read_ident(s.take(s.len() - 2)) {
                None => None,
                Some(n) => Some(n.push(34)),
            }
        } else {
            None
        }
    } else {
        match read_ident(s.drop_last()) {
            None => None,
            Some(n) => Some(n.push(s.last())),
        }
    }
}

/// A quoted name is read back as it was.
pub proof fn law_ident_reads_back(name: Seq<u8>)
    ensures
        read_ident(doubled(name)) == Some(name),
    decreases name.len(),
{
    if name.len() > 0 {
        law_ident_reads_back(name.drop_last());
        let d = doubled(name);
        let before = doubled(name.drop_last());
        if name.last() == 34 {
            assert(d.take(d.len() - 2) =~= before);
        } else {
            assert(d.drop_last() =~= before);
        }
        assert(name.drop_last().push(name.last()) =~= name);
    } else {
        assert(name =~= Seq::<u8>::empty());
    }
}

/// Bytes that can be handed on: they hold no zero.
pub fn c_argument(given: &[u8], what: &str) -> (r: Result<Vec<u8>, String>)
    ensures
        if given@.contains(0u8) {
            r matches Err(e) && e@ == what@ + " nao pode conter NUL"@
        } else {
            r matches Ok(b) && b@ == given@
        },
{
    let mut r: Vec<u8> = Vec::new();
    let mut i: usize = 0;
    while i < given.len()
        invariant
            i <= given@.len(),
            r@ == given@.take(i as int),
            forall|j: int| 0 <= j < i ==> given@[j] != 0,
        decreases given@.len() - i,
    {
        if given[i] == 0 {
            assert(given@[i as int] == 0);
            let mut e = what.to_string();
            e.append(" nao pode conter NUL");
            return Err(e);
        }
        r.push(given[i]);
        assert(r@ =~= given@.take(i + 1));
        i += 1;
    }
    assert(r@ =~= given@);
    Ok(r)
}

// How values are read.

/// Whether bytes are digits.
pub open spec fn digits(s: Seq<u8>) -> bool {
    forall|i: int| 0 <= i < s.len() ==> 48 <= #[trigger] s[i] <= 57
}

/// The number that digits write.
pub open spec fn number_of(s: Seq<u8>) -> nat
    decreases s.len(),
{
    if s.len() == 0 {
        0
    } else {
        10 * number_of(s.drop_last()) + (s.last() - 48) as nat
    }
}

/// The integer that a text writes: digits, with a sign allowed in front.
pub open spec fn integer_of(s: Seq<u8>) -> Option<int> {
    if s.len() > 0 && (s[0] == 45 || s[0] == 43) {
        let d = s.skip(1);
        if d.len() > 0 && digits(d) {
            Some(
                if s[0] == 45 {
                    -(number_of(d) as int)
                } else {
                    number_of(d) as int
                },
            )
        } else {
            None
        }
    } else if s.len() > 0 && digits(s) {
        Some(number_of(s) as int)
    } else {
        None
    }
}

/// What reading an integer comes to.
pub enum Whole {
    Number(i64),
    /// It is none.
    NotOne,
    /// It does not fit in 64 bits.
    TooLarge,
}

proof fn lemma_number_grows(s: Seq<u8>, i: int)
    requires
        0 <= i <= s.len(),
        digits(s),
    ensures
        number_of(s.take(i)) <= number_of(s),
    decreases s.len() - i,
{
    if i < s.len() {
        lemma_number_grows(s, i + 1);
        assert(s.take(i + 1).drop_last() =~= s.take(i));
        assert(s.take(i + 1).last() == s[i]);
    } else {
        assert(s.take(i) =~= s);
    }
}

fn read_digits(s: &[u8]) -> (r: Option<Option<u64>>)
    ensures
        match r {
            None => s@.len() == 0 || !digits(s@),
            Some(None) => s@.len() > 0 && digits(s@) && number_of(s@) > 0x8000_0000_0000_0000,
            Some(Some(n)) => s@.len() > 0 && digits(s@) && number_of(s@) == n && n
                <= 0x8000_0000_0000_0000,
        },
{
    if s.len() == 0 {
        return None;
    }
    let mut value: u64 = 0;
    let mut large = false;
    let mut i: usize = 0;
    while i < s.len()
        invariant
            i <= s@.len(),
            digits(s@.take(i as int)),
            large ==> number_of(s@.take(i as int)) > 0x8000_0000_0000_0000,
            !large ==> value == number_of(s@.take(i as int)) && value <= 0x8000_0000_0000_0000,
        decreases s@.len() - i,
    {
        let b = s[i];
        if b < 48 || b > 57 {
            assert(!digits(s@)) by {
                assert(s@[i as int] == b);
            }
            return None;
        }
        assert(s@.take(i + 1).drop_last() =~= s@.take(i as int));
        assert(s@.take(i + 1).last() == b);
        assert forall|j: int| 0 <= j < i + 1 implies 48 <= #[trigger] s@.take(i + 1)[j] <= 57 by {
            if j < i {
                assert(s@.take(i + 1)[j] == s@.take(i as int)[j]);
            }
        }
        if !large {
            let next: u128 = value as u128 * 10 + (b - 48) as u128;
            if next > 0x8000_0000_0000_0000 {
                large = true;
            } else {
                value = next as u64;
            }
        }
        i += 1;
    }
    assert(s@.take(i as int) =~= s@);
    if large {
        Some(None)
    } else {
        Some(Some(value))
    }
}

/// Reads an integer, where one that does not fit in 64 bits is told from a text
/// that is none.
pub fn parse_i64_checked(s: &[u8]) -> (r: Whole)
    ensures
        match integer_of(s@) {
            Some(n) => if i64::MIN <= n <= i64::MAX {
                r matches Whole::Number(v) && v == n
            } else {
                r == Whole::TooLarge
            },
            None => r == Whole::NotOne,
        },
{
    if s.len() == 0 {
        return Whole::NotOne;
    }
    let signed = s[0] == 45 || s[0] == 43;
    let body = if signed {
        slice_subrange(s, 1, s.len())
    } else {
        s
    };
    assert(signed ==> body@ =~= s@.skip(1));
    match read_digits(body) {
        None => Whole::NotOne,
        Some(None) => Whole::TooLarge,
        Some(Some(n)) => if s[0] == 45 {
            Whole::Number((-(n as i128)) as i64)
        } else if n <= 0x7fff_ffff_ffff_ffff {
            Whole::Number(n as i64)
        } else {
            Whole::TooLarge
        },
    }
}

/// Reads an integer of at most 64 bits.
pub fn parse_i64_raw(s: &[u8]) -> (r: Option<i64>)
    requires
        integer_of(s@) matches Some(n) ==> i64::MIN <= n <= i64::MAX,
    ensures
        match r {
            Some(v) => integer_of(s@) == Some(v as int),
            None => integer_of(s@) is None,
        },
{
    match parse_i64_checked(s) {
        Whole::Number(v) => Some(v),
        _ => None,
    }
}

/// What a value of the database is to Ruby.
pub enum Cell {
    /// The value is not known.
    Nil,
    Integer(i64),
    True,
    False,
    /// The number that the text writes.
    Float,
    NotANumber,
    Infinity,
    NegativeInfinity,
    /// The text itself.
    Text,
}

/// Whether a type of the database holds integers.
pub open spec fn is_integer_type(oid: u32) -> bool {
    oid == 20 || oid == 21 || oid == 23 || oid == 26
}

/// Whether a type of the database holds floating-point numbers.
pub open spec fn is_float_type(oid: u32) -> bool {
    oid == 700 || oid == 701
}

/// What a text of a type is to Ruby.
pub open spec fn decoded(oid: u32, s: Seq<u8>) -> Cell {
    if is_integer_type(oid) {
        match integer_of(s) {
            Some(n) => Cell::Integer(n as i64),
            None => Cell::Text,
        }
    } else if is_float_type(oid) {
        if s == seq![78u8, 97u8, 78u8] {
            Cell::NotANumber
        } else if s == seq![73u8, 110u8, 102u8, 105u8, 110u8, 105u8, 116u8, 121u8] {
            Cell::Infinity
        } else if s == seq![45u8, 73u8, 110u8, 102u8, 105u8, 110u8, 105u8, 116u8, 121u8] {
            Cell::NegativeInfinity
        } else {
            Cell::Float
        }
    } else if oid == 16 && s.len() > 0 && s[0] == 116 {
        Cell::True
    } else if oid == 16 && s.len() > 0 && s[0] == 102 {
        Cell::False
    } else {
        Cell::Text
    }
}

/// Reads a text of a type; an integer has to fit in 64 bits.
pub fn decode_value(oid: u32, s: &[u8]) -> (r: Cell)
    requires
        is_integer_type(oid) && integer_of(s@) is Some ==> i64::MIN <= integer_of(s@)->0
            <= i64::MAX,
    ensures
        r == decoded(oid, s@),
{
    if oid == 20 || oid == 21 || oid == 23 || oid == 26 {
        match parse_i64_raw(s) {
            Some(n) => Cell::Integer(n),
            None => Cell::Text,
        }
    } else if oid == 700 || oid == 701 {
        let nan: [u8; 3] = [78, 97, 78];
        let infinity: [u8; 8] = [73, 110, 102, 105, 110, 105, 116, 121];
        let negative: [u8; 9] = [45, 73, 110, 102, 105, 110, 105, 116, 121];
        assert(nan@ =~= seq![78u8, 97u8, 78u8]);
        assert(infinity@ =~= seq![73u8, 110u8, 102u8, 105u8, 110u8, 105u8, 116u8, 121u8]);
        assert(negative@ =~= seq![45u8, 73u8, 110u8, 102u8, 105u8, 110u8, 105u8, 116u8, 121u8]);
        if same_bytes(s, nan.as_slice()) {
            Cell::NotANumber
        } else if same_bytes(s, infinity.as_slice()) {
            Cell::Infinity
        } else if same_bytes(s, negative.as_slice()) {
            Cell::NegativeInfinity
        } else {
            Cell::Float
        }
    } else if oid == 16 && s.len() > 0 && s[0] == 116 {
        Cell::True
    } else if oid == 16 && s.len() > 0 && s[0] == 102 {
        Cell::False
    } else {
        Cell::Text
    }
}

/// What a cell of a result is to Ruby: nothing where it is not known, its text
/// where types are not asked for, and else what its type makes of it. `None`
/// stands for an integer that does not fit in 64 bits.
pub fn cell(value: Option<&[u8]>, oid: u32, decode: bool) -> (r: Option<Cell>)
    ensures
        match value {
            None => r == Some(Cell::Nil),
            Some(s) => if !decode {
                r == Some(Cell::Text)
            } else if is_integer_type(oid) && integer_of(s@) is Some && !(i64::MIN <= integer_of(
                s@,
            )->0 <= i64::MAX) {
                r is None
            } else {
                r == Some(decoded(oid, s@))
            },
        },
{
    match value {
        None => Some(Cell::Nil),
        Some(s) => {
            if !decode {
                return Some(Cell::Text);
            }
            if oid == 20 || oid == 21 || oid == 23 || oid == 26 {
                match parse_i64_checked(s) {
                    Whole::TooLarge => {
                        return None;
                    },
                    _ => {},
                }
            }
            Some(decode_value(oid, s))
        },
    }
}

/// The bytes of a text, each as the character with its number.
pub open spec fn latin(s: Seq<u8>) -> Seq<char> {
    s.map_values(|b: u8| b as char)
}

/// How many rows a command changed, as its text says; none where it says
/// nothing that is a number.
pub fn cmd_tuples(said: Option<&[u8]>) -> (r: i64)
    ensures
        match said {
            None => r == 0,
            Some(s) => r == (match number::signed(
                latin(s@),
                i64::MIN as int,
                i64::MAX as int,
            ) {
                Some(n) => n,
                None => 0,
            }),
        },
{
    match said {
        None => 0,
        Some(s) => {
            let mut c: Vec<char> = Vec::new();
            let mut i: usize = 0;
            while i < s.len()
                invariant
                    i <= s@.len(),
                    c@ == latin(s@.take(i as int)),
                decreases s@.len() - i,
            {
                c.push(s[i] as char);
                assert(c@ =~= latin(s@.take(i + 1)));
                i += 1;
            }
            assert(s@.take(i as int) =~= s@);
            match parse_i64(c.as_slice()) {
                Some(n) => n,
                None => 0,
            }
        },
    }
}

/// The number of a row, where there is one.
pub fn row_index(i: i64, rows: i32) -> (r: Option<i32>)
    ensures
        r == (if 0 <= i < rows {
            Some(i as i32)
        } else {
            None
        }),
{
    if 0 <= i && i < rows as i64 {
        Some(i as i32)
    } else {
        None
    }
}

/// The number of a column; there has to be one.
pub fn column_index(j: i64, columns: i32) -> (r: Result<i32, String>)
    ensures
        match r {
            Ok(k) => 0 <= j < columns && k == j,
            Err(e) => !(0 <= j < columns) && e@ == "indice fora do range do result"@,
        },
{
    match row_index(j, columns) {
        Some(k) => Ok(k),
        None => Err("indice fora do range do result".to_string()),
    }
}

/// The numbers of a row and a column; there have to be both.
pub fn cell_index(i: i64, j: i64, rows: i32, columns: i32) -> (r: Result<(i32, i32), String>)
    ensures
        match r {
            Ok(at) => 0 <= i < rows && 0 <= j < columns && at == (i as i32, j as i32),
            Err(e) => !(0 <= i < rows && 0 <= j < columns) && e@
                == "indice fora do range do result"@,
        },
{
    match (row_index(i, rows), row_index(j, columns)) {
        (Some(a), Some(b)) => Ok((a, b)),
        _ => Err("indice fora do range do result".to_string()),
    }
}

/// What the library says, without whitespace at its end.
pub fn message_text(said: &[u8]) -> (r: String)
    ensures
        r@ == text::trimmed_end(utf8::lossy_text(said@)),
{
    let s = text_of(said);
    let c = chars_of(s.as_str());
    string_of(trim_end(c.as_slice()))
}

/// Why a command failed, where its status says that it did.
pub fn fatal_message(status: i32, said: &[u8]) -> (r: Option<String>)
    ensures
        match r {
            Some(m) => status == 7 && m@ == text::trimmed_end(utf8::lossy_text(said@)),
            None => status != 7,
        },
{
    if status == 7 {
        Some(message_text(said))
    } else {
        None
    }
}

/// Why a connection failed, where its status says that it did.
pub fn connection_failure(status: i32, said: &[u8]) -> (r: Option<String>)
    ensures
        match r {
            Some(m) => status != 0 && m@ == text::trimmed_end(utf8::lossy_text(said@)),
            None => status == 0,
        },
{
    if status != 0 {
        Some(message_text(said))
    } else {
        None
    }
}

/// A value stands as it is unless it is empty or holds a blank, a quotation mark
/// of either kind, a backslash or a control character; one that does stands
/// between single quotation marks.
pub proof fn law_when_quoted(v: Seq<char>, i: int)
    ensures
        v.len() == 0 ==> quoted(v) == seq!['\'', '\''],
        0 <= i < v.len() && (v[i] == ' ' || v[i] == '\'' || v[i] == '"' || v[i] == '\\' || v[i] == '\t'
            || v[i] == '\n' || v[i] == '\r' || (v[i] as u32) < 0x20 || v[i] as u32 == 0x7f || 0x80
            <= v[i] as u32 <= 0x9f) ==> quoted(v).len() >= v.len() + 2 && quoted(v)[0] == '\''
            && quoted(v).last() == '\'',
        v.len() > 0 && (forall|j: int|
            0 <= j < v.len() ==> {
                let c = #[trigger] v[j];
                &&& c as u32 > 0x20 && !(0x7f <= c as u32 <= 0x9f)
                &&& c != '\'' && c != '"' && c != '\\'
            }) ==> quoted(v) == v,
{
    lemma_escaped_longer(v);
    if v.len() == 0 {
        assert(escaped(v) =~= Seq::<char>::empty());
        assert(quoted(v) =~= seq!['\'', '\'']);
    }
    if 0 <= i < v.len() && is_special(v[i]) {
        assert(needs_quotes(v));
    }
    if needs_quotes(v) && v.len() > 0 {
        let k = choose|k: int| 0 <= k < v.len() && is_special(#[trigger] v[k]);
        assert(is_special(v[k]));
    }
}

proof fn lemma_escaped_longer(v: Seq<char>)
    ensures
        escaped(v).len() >= v.len(),
    decreases v.len(),
{
    if v.len() > 0 {
        lemma_escaped_longer(v.drop_last());
    }
}

/// The bytes of an integer in decimal.
pub open spec fn decimal_bytes(n: int) -> Seq<u8> {
    number::signed_decimal(n).map_values(|c: char| c as u8)
}

proof fn lemma_digits_agree(s: Seq<char>)
    requires
        number::all_digits(s),
    ensures
        digits(s.map_values(|c: char| c as u8)),
        number_of(s.map_values(|c: char| c as u8)) == number::digits_value(s),
    decreases s.len(),
{
    let b = s.map_values(|c: char| c as u8);
    assert forall|i: int| 0 <= i < b.len() implies 48 <= #[trigger] b[i] <= 57 by {
        assert(number::is_digit(s[i]));
    }
    if s.len() > 0 {
        let head = s.drop_last();
        assert forall|i: int| 0 <= i < head.len() implies number::is_digit(#[trigger] head[i]) by {
            assert(number::is_digit(s[i]));
        }
        lemma_digits_agree(head);
        assert(b.drop_last() =~= head.map_values(|c: char| c as u8));
        assert(number::is_digit(s[s.len() - 1]));
    }
}

/// An integer that the database writes is read as itself, negative ones too,
/// and with a plus sign in front as without it.
pub proof fn law_integer_reads_back(n: int)
    ensures
        integer_of(decimal_bytes(n)) == Some(n),
        n >= 0 ==> integer_of(seq!['+' as u8] + decimal_bytes(n)) == Some(n),
{
    let m = if n < 0 {
        (-n) as nat
    } else {
        n as nat
    };
    let d = number::decimal(m);
    number::lemma_decimal_reads_back(m, m as int);
    assert(number::without_plus(d) == d) by {
        assert(number::is_digit(d[0]));
    }
    lemma_digits_agree(d);
    let b = d.map_values(|c: char| c as u8);
    assert(number::is_digit(d[0]));
    assert(b[0] == d[0] as u8);
    if n < 0 {
        assert(decimal_bytes(n) =~= seq![45u8] + b);
        assert(decimal_bytes(n).skip(1) =~= b);
    } else {
        assert(decimal_bytes(n) =~= b);
        let p = seq!['+' as u8] + b;
        assert(p.skip(1) =~= b);
        assert(p[0] == 43);
    }
}

/// A text that is no integer is not taken for one: without a digit, and with
/// anything but digits behind its first character.
pub proof fn law_not_an_integer(s: Seq<u8>, i: int)
    ensures
        s.len() == 0 ==> integer_of(s) is None,
        s.len() == 1 && !(48 <= s[0] <= 57) ==> integer_of(s) is None,
        1 <= i < s.len() && !(48 <= s[i] <= 57) ==> integer_of(s) is None,
{
    if 1 <= i < s.len() && !(48 <= s[i] <= 57) {
        assert(s.skip(1)[i - 1] == s[i]);
    }
}

/// What the types of the database are to Ruby: the integer types and object
/// numbers are integers, the two floating-point types are numbers with their
/// three special values, truth values are true or false, and everything else
/// stays a text.
pub proof fn law_types(oid: u32, s: Seq<u8>, n: int)
    ensures
        (oid == 20 || oid == 21 || oid == 23 || oid == 26) && i64::MIN <= n <= i64::MAX
            ==> decoded(oid, decimal_bytes(n)) == Cell::Integer(n as i64),
        (oid == 20 || oid == 21 || oid == 23 || oid == 26) && integer_of(s) is None ==> decoded(
            oid,
            s,
        ) == Cell::Text,
        oid == 700 || oid == 701 ==> {
            let t = latin(s);
            decoded(oid, s) == (if t == seq!['N', 'a', 'N'] {
                Cell::NotANumber
            } else if t == seq!['I', 'n', 'f', 'i', 'n', 'i', 't', 'y'] {
                Cell::Infinity
            } else if t == seq!['-', 'I', 'n', 'f', 'i', 'n', 'i', 't', 'y'] {
                Cell::NegativeInfinity
            } else {
                Cell::Float
            })
        },
        oid == 16 && s.len() > 0 ==> decoded(oid, s) == (if s[0] as char == 't' {
            Cell::True
        } else if s[0] as char == 'f' {
            Cell::False
        } else {
            Cell::Text
        }),
        oid != 16 && oid != 20 && oid != 21 && oid != 23 && oid != 26 && oid != 700 && oid != 701
            ==> decoded(oid, s) == Cell::Text,
{
    law_integer_reads_back(n);
    let t = latin(s);
    let nan = seq![78u8, 97u8, 78u8];
    let inf = seq![73u8, 110u8, 102u8, 105u8, 110u8, 105u8, 116u8, 121u8];
    let neg = seq![45u8, 73u8, 110u8, 102u8, 105u8, 110u8, 105u8, 116u8, 121u8];
    assert(latin(nan) =~= seq!['N', 'a', 'N']);
    assert(latin(inf) =~= seq!['I', 'n', 'f', 'i', 'n', 'i', 't', 'y']);
    assert(latin(neg) =~= seq!['-', 'I', 'n', 'f', 'i', 'n', 'i', 't', 'y']);
    lemma_latin_injective(s, nan);
    lemma_latin_injective(s, inf);
    lemma_latin_injective(s, neg);
}

proof fn lemma_latin_injective(a: Seq<u8>, b: Seq<u8>)
    ensures
        latin(a) == latin(b) <==> a == b,
{
    if latin(a) == latin(b) {
        assert(latin(a).len() == a.len() && latin(b).len() == b.len());
        assert forall|i: int| 0 <= i < a.len() implies a[i] == b[i] by {
            assert(latin(a)[i] == a[i] as char);
            assert(latin(b)[i] == b[i] as char);
        }
        assert(a =~= b);
    }
}

/// The library that was built beside a packaged Ruby is looked for below the
/// directory that holds the packaged ones.
pub proof fn law_built_library(vendor: Seq<char>, ruby: Seq<char>, version: Seq<char>)
    requires
        vendor.len() > 0 && vendor.last() != '/' && path::tail_stripped(vendor) == vendor,
        ruby.len() > 0 && !ruby.contains('/') && ruby.last() != '.',
        version.len() > 0 && version[0] != '/' && version.last() != '/',
    ensures
        sources_of(vendor + seq!['/'] + ruby + "/bin/ruby"@) == Some(vendor + "/src"@),
        library_of(vendor + "/src"@, version) == vendor + "/src/"@ + version
            + "/install/lib/libpq.so.5"@,
{
    reveal_strlit("/bin/ruby");
    reveal_strlit("bin");
    reveal_strlit("ruby");
    reveal_strlit("src");
    reveal_strlit("/src");
    reveal_strlit("/src/");
    reveal_strlit("install");
    reveal_strlit("lib");
    reveal_strlit("libpq.so.5");
    reveal_strlit("/install/lib/libpq.so.5");
    let slash = seq!['/'];
    let home = vendor + slash + ruby;
    let bin = home + slash + "bin"@;
    let p = bin + slash + "ruby"@;
    assert(p =~= vendor + seq!['/'] + ruby + "/bin/ruby"@);
    assert(ruby.contains(ruby.last()));
    assert(path::tail_stripped(home) == home);
    assert(path::tail_stripped(bin) == bin);
    path::lemma_parent_of_child(bin, "ruby"@);
    path::lemma_parent_of_child(home, "bin"@);
    path::lemma_parent_of_child(vendor, ruby);
    assert(path::joined_path(vendor, "src"@) =~= vendor + "/src"@);
    let s = vendor + "/src"@;
    let a = path::joined_path(s, version);
    assert(a =~= vendor + "/src/"@ + version);
    let b = path::joined_path(a, "install"@);
    assert(b =~= a + slash + "install"@);
    let c = path::joined_path(b, "lib"@);
    assert(c =~= b + slash + "lib"@);
    let d = path::joined_path(c, "libpq.so.5"@);
    assert(d =~= c + slash + "libpq.so.5"@);
    assert(d =~= vendor + "/src/"@ + version + "/install/lib/libpq.so.5"@);
}

} // verus!
