//! Escaping for HTML with the behaviour of Ruby's `ERB::Util.html_escape`,
//! on bytes.
use vstd::prelude::*;

verus! {

/// Whether a byte has a meaning of its own in HTML: `&`, `<`, `>`, `"` or
/// `'`.
pub open spec fn is_special(b: u8) -> bool {
    b == 0x26 || b == 0x3c || b == 0x3e || b == 0x22 || b == 0x27
}

/// How one byte is written: `&amp;`, `&lt;`, `&gt;`, `&quot;`, `&#39;` or the
/// byte itself.
pub open spec fn escaped_byte(b: u8) -> Seq<u8> {
    if b == 0x26 {
        seq![0x26u8, 0x61u8, 0x6du8, 0x70u8, 0x3bu8]
    } else if b == 0x3c {
        seq![0x26u8, 0x6cu8, 0x74u8, 0x3bu8]
    } else if b == 0x3e {
        seq![0x26u8, 0x67u8, 0x74u8, 0x3bu8]
    } else if b == 0x22 {
        seq![0x26u8, 0x71u8, 0x75u8, 0x6fu8, 0x74u8, 0x3bu8]
    } else if b == 0x27 {
        seq![0x26u8, 0x23u8, 0x33u8, 0x39u8, 0x3bu8]
    } else {
        seq![b]
    }
}

/// An escaped text: each byte in turn.
pub open spec fn escaped(s: Seq<u8>) -> Seq<u8>
    decreases s.len(),
{
    if s.len() == 0 {
        Seq::empty()
    } else {
        escaped(s.drop_last()) + escaped_byte(s.last())
    }
}

/// Escapes the bytes of a text.
pub fn escape(s: &[u8]) -> (r: Vec<u8>)
    ensures
        r@ == escaped(s@),
{
    let mut out: Vec<u8> = Vec::new();
    let mut i: usize = 0;
    while i < s.len()
        invariant
            i <= s@.len(),
            out@ == escaped(s@.take(i as int)),
        decreases s@.len() - i,
    {
        let b = s[i];
        let ghost before = out@;
        assert(s@.take(i + 1).drop_last() =~= s@.take(i as int));
        if b == 0x26 {
            out.push(0x26);
            out.push(0x61);
            out.push(0x6d);
            out.push(0x70);
            out.push(0x3b);
        } else if b == 0x3c {
            out.push(0x26);
            out.push(0x6c);
            out.push(0x74);
            out.push(0x3b);
        } else if b == 0x3e {
            out.push(0x26);
            out.push(0x67);
            out.push(0x74);
            out.push(0x3b);
        } else if b == 0x22 {
            out.push(0x26);
            out.push(0x71);
            out.push(0x75);
            out.push(0x6f);
            out.push(0x74);
            out.push(0x3b);
        } else if b == 0x27 {
            out.push(0x26);
            out.push(0x23);
            out.push(0x33);
            out.push(0x39);
            out.push(0x3b);
        } else {
            out.push(b);
        }
        assert(out@ =~= before + escaped_byte(b));
        i += 1;
    }
    assert(s@.take(i as int) =~= s@);
    out
}

/// An escaped text holds no byte with a meaning of its own but the `&` of its
/// escape sequences.
pub proof fn law_escaped_is_safe(s: Seq<u8>)
    ensures
        forall|i: int|
            0 <= i < escaped(s).len() ==> {
                let b = #[trigger] escaped(s)[i];
                b == 0x26 || !is_special(b)
            },
    decreases s.len(),
{
    if s.len() > 0 {
        let head = escaped(s.drop_last());
        let tail = escaped_byte(s.last());
        law_escaped_is_safe(s.drop_last());
        let e = escaped(s);
        assert forall|i: int| 0 <= i < e.len() implies ({
            let b = #[trigger] e[i];
            b == 0x26 || !is_special(b)
        }) by {
            if i < head.len() {
                assert(e[i] == head[i]);
            } else {
                assert(e[i] == tail[i - head.len()]);
            }
        }
    }
}

/// A text without special bytes is its own escaped text.
pub proof fn law_plain_text_unchanged(s: Seq<u8>)
    requires
        forall|i: int| 0 <= i < s.len() ==> !is_special(#[trigger] s[i]),
    ensures
        escaped(s) == s,
    decreases s.len(),
{
    if s.len() > 0 {
        let head = s.drop_last();
        assert forall|i: int| 0 <= i < head.len() implies !is_special(#[trigger] head[i]) by {
            assert(head[i] == s[i]);
        }
        law_plain_text_unchanged(head);
        assert(head + seq![s.last()] =~= s);
    } else {
        assert(escaped(s) =~= s);
    }
}

proof fn lemma_escaped_front(s: Seq<u8>)
    requires
        s.len() > 0,
    ensures
        escaped(s) == escaped_byte(s[0]) + escaped(s.skip(1)),
    decreases s.len(),
{
    let e = escaped_byte(s[0]);
    if s.len() == 1 {
        assert(escaped(s.drop_last()) =~= Seq::<u8>::empty());
        assert(escaped(s.skip(1)) =~= Seq::<u8>::empty());
        assert(escaped(s) =~= e + escaped(s.skip(1)));
    } else {
        let head = s.drop_last();
        lemma_escaped_front(head);
        assert(head.skip(1) =~= s.skip(1).drop_last());
        assert((e + escaped(head.skip(1))) + escaped_byte(s.last()) =~= e + (escaped(head.skip(1))
            + escaped_byte(s.last())));
    }
}

/// Two texts that are written the same are the same.
pub proof fn law_escape_injective(a: Seq<u8>, b: Seq<u8>)
    requires
        escaped(a) == escaped(b),
    ensures
        a == b,
    decreases a.len(),
{
    if a.len() == 0 || b.len() == 0 {
        if a.len() > 0 {
            lemma_escaped_front(a);
        }
        if b.len() > 0 {
            lemma_escaped_front(b);
        }
        assert(a =~= b);
    } else {
        lemma_escaped_front(a);
        lemma_escaped_front(b);
        let ea = escaped_byte(a[0]);
        let eb = escaped_byte(b[0]);
        let e = escaped(a);
        assert(e[0] == ea[0] && e[0] == eb[0]);
        if e[0] == 0x26 {
            assert(e[1] == ea[1] && e[1] == eb[1]);
        }
        assert(a[0] == b[0]);
        assert(escaped(a.skip(1)) =~= e.skip(ea.len() as int));
        assert(escaped(b.skip(1)) =~= e.skip(ea.len() as int));
        law_escape_injective(a.skip(1), b.skip(1));
        assert(a =~= seq![a[0]] + a.skip(1));
        assert(b =~= seq![b[0]] + b.skip(1));
    }
}

/// Every byte is escaped where it stands, and by itself: the five with a meaning
/// of their own become their entities, and all others stay.
pub proof fn law_escaped_in_place(a: Seq<u8>, b: u8, c: Seq<u8>)
    ensures
        escaped(a + seq![b] + c) == escaped(a) + escaped(seq![b]) + escaped(c),
        escaped(Seq::empty()).len() == 0,
        ({
            let e = escaped(seq![b]).map_values(|x: u8| x as char);
            if b as char == '&' {
                e == seq!['&', 'a', 'm', 'p', ';']
            } else if b as char == '<' {
                e == seq!['&', 'l', 't', ';']
            } else if b as char == '>' {
                e == seq!['&', 'g', 't', ';']
            } else if b as char == '"' {
                e == seq!['&', 'q', 'u', 'o', 't', ';']
            } else if b as char == '\'' {
                e == seq!['&', '#', '3', '9', ';']
            } else {
                escaped(seq![b]) == seq![b]
            }
        }),
    decreases c.len(),
{
    let nothing = Seq::<u8>::empty();
    assert(seq![b].drop_last() =~= nothing);
    assert(escaped(nothing) =~= nothing);
    assert(escaped(seq![b]) =~= escaped_byte(b));
    assert(escaped(seq![b]).map_values(|x: u8| x as char) =~= escaped_byte(b).map_values(
        |x: u8| x as char,
    ));
    let s = a + seq![b] + c;
    if c.len() == 0 {
        assert(s.drop_last() =~= a);
        assert(escaped(a) + escaped_byte(b) + escaped(c) =~= escaped(a) + escaped_byte(b));
    } else {
        law_escaped_in_place(a, b, c.drop_last());
        assert(s.drop_last() =~= a + seq![b] + c.drop_last());
        assert(s.last() == c.last());
        assert(escaped(a) + escaped_byte(b) + escaped(c.drop_last()) + escaped_byte(c.last())
            =~= escaped(a) + escaped_byte(b) + (escaped(c.drop_last()) + escaped_byte(c.last())));
    }
}

} // verus!
