use vstd::prelude::*;

verus! {

/// An ASCII hexadecimal digit: `0-9`, `a-f` or `A-F`.
pub open spec fn is_hex_digit(c: char) -> bool {
    ('0' <= c && c <= '9') || ('a' <= c && c <= 'f') || ('A' <= c && c <= 'F')
}

/// Two characters that are equal once ASCII letters are lowercased.
pub open spec fn same_letter(a: char, b: char) -> bool {
    let x = a as u32;
    let y = b as u32;
    x == y || (65 <= x <= 90 && y == x + 32) || (65 <= y <= 90 && x == y + 32)
}

/// `c` begins with `pat`, letters compared without regard to case.
pub open spec fn starts_with_folded(c: Seq<char>, pat: Seq<char>) -> bool {
    &&& pat.len() <= c.len()
    &&& forall|k: int| 0 <= k < pat.len() ==> same_letter(#[trigger] c[k], pat[k])
}

/// Boundary-safe replacement of `from` by `to` in `c`: occurrences are found left to
/// right without overlap, and one that is followed by a hex digit is kept as it is.
pub open spec fn replaced(c: Seq<char>, from: Seq<char>, to: Seq<char>) -> Seq<char>
    decreases c.len(),
{
    if c.len() == 0 || from.len() == 0 {
        c
    } else if starts_with_folded(c, from) {
        let rest = replaced(c.subrange(from.len() as int, c.len() as int), from, to);
        if from.len() < c.len() && is_hex_digit(c[from.len() as int]) {
            c.subrange(0, from.len() as int) + rest
        } else {
            to + rest
        }
    } else {
        seq![c[0]] + replaced(c.subrange(1, c.len() as int), from, to)
    }
}

/// Text a color is written in: not empty, and made of `#` and hex digits only.
///
/// On such a pattern, comparing lowercased forms (Unicode lowercase) finds exactly the
/// occurrences that folding ASCII letters finds: no character other than `A-F` has one
/// of these characters as its lowercase, and none of them is part of the lowercase of a
/// character that changes length when lowercased.
pub open spec fn is_color_text(s: Seq<char>) -> bool {
    &&& s.len() > 0
    &&& forall|k: int| 0 <= k < s.len() ==> #[trigger] s[k] == '#' || is_hex_digit(s[k])
}

/// A `#RRGGBB` color: `#` and six hex digits.
pub open spec fn is_hex_color(h: Seq<char>) -> bool {
    &&& h.len() == 7
    &&& h[0] == '#'
    &&& forall|k: int| 1 <= k < 7 ==> is_hex_digit(#[trigger] h[k])
}

/// The three-digit form `#RGB` of a `#RRGGBB` color whose channels each repeat one
/// digit.
pub open spec fn short_form(h: Seq<char>) -> Option<Seq<char>> {
    if is_hex_color(h) && h[1] == h[2] && h[3] == h[4] && h[5] == h[6] {
        Some(seq!['#', h[1], h[3], h[5]])
    } else {
        None
    }
}

/// One mapping: the full form first, then the short form where `from` has one.
pub open spec fn mapped_once(c: Seq<char>, from: Seq<char>, to: Seq<char>) -> Seq<char> {
    let full = replaced(c, from, to);
    match short_form(from) {
        Some(short_from) => {
            let short_to = match short_form(to) {
                Some(s) => s,
                None => to,
            };
            replaced(full, short_from, short_to)
        },
        None => full,
    }
}

/// The mappings applied one after the other, in list order.
pub open spec fn mapped(c: Seq<char>, ms: Seq<(String, String)>) -> Seq<char>
    decreases ms.len(),
{
    if ms.len() == 0 {
        c
    } else {
        mapped(mapped_once(c, ms[0].0@, ms[0].1@), ms.drop_first())
    }
}

/// Relies on `String::push`: appends one character at the end.
#[verifier::external_body]
fn push_char(s: &mut String, c: char)
    ensures
        final(s)@ == old(s)@.push(c),
{
    s.push(c)
}

/// The characters of `s`, in order.
fn chars_of(s: &str) -> (r: Vec<char>)
    ensures
        r@ == s@,
{
    let mut r: Vec<char> = Vec::new();
    for c in it: s.chars()
        invariant
            r@ == it.seq().subrange(0, it.index() as int),
            it.seq() == s@,
    {
        r.push(c);
    }
    r
}

fn is_hex_digit_exec(c: char) -> (r: bool)
    ensures
        r == is_hex_digit(c),
{
    ('0' <= c && c <= '9') || ('a' <= c && c <= 'f') || ('A' <= c && c <= 'F')
}

fn same_letter_exec(a: char, b: char) -> (r: bool)
    ensures
        r == same_letter(a, b),
{
    let x = a as u32;
    let y = b as u32;
    x == y || (65 <= x && x <= 90 && y == x + 32) || (65 <= y && y <= 90 && x == y + 32)
}

/// Whether `pat` occurs at position `i` of `c`, letters compared without regard to case.
fn occurs_at(c: &Vec<char>, i: usize, pat: &Vec<char>) -> (r: bool)
    requires
        i <= c.len(),
    ensures
        r == starts_with_folded(c@.subrange(i as int, c.len() as int), pat@),
{
    if pat.len() > c.len() - i {
        return false;
    }
    let ghost rest = c@.subrange(i as int, c.len() as int);
    let mut k: usize = 0;
    while k < pat.len()
        invariant
            k <= pat.len(),
            pat.len() <= c.len() - i,
            rest == c@.subrange(i as int, c.len() as int),
            forall|j: int| 0 <= j < k ==> same_letter(#[trigger] rest[j], pat@[j]),
        decreases pat.len() - k,
    {
        if !same_letter_exec(c[i + k], pat[k]) {
            assert(!same_letter(rest[k as int], pat@[k as int]));
            return false;
        }
        k = k + 1;
    }
    true
}

/// Replaces every occurrence of `from` in `content` by `to`, comparing letters without
/// regard to case; an occurrence directly followed by a hex digit is left as it is.
/// `from` is color text (`#` and hex digits), which is what the mappings hold.
pub fn replace_color_insensitive(content: &str, from: &str, to: &str) -> (r: String)
    requires
        is_color_text(from@),
    ensures
        r@ == replaced(content@, from@, to@),
{
    let cs = chars_of(content);
    let fs = chars_of(from);
    let n = cs.len();
    let flen = fs.len();
    let mut out = String::new();
    let mut i: usize = 0;
    assert(cs@.subrange(0, n as int) =~= cs@);
    assert(out@ + replaced(cs@, fs@, to@) =~= replaced(cs@, fs@, to@));
    while i < n
        invariant
            i <= n,
            n == cs@.len(),
            cs@ == content@,
            fs@ == from@,
            flen == fs@.len(),
            flen > 0,
            out@ + replaced(cs@.subrange(i as int, n as int), fs@, to@) == replaced(
                content@,
                from@,
                to@,
            ),
        decreases n - i,
    {
        let ghost c = cs@.subrange(i as int, n as int);
        if occurs_at(&cs, i, &fs) {
            let after = i + flen;
            assert(c.subrange(flen as int, c.len() as int) =~= cs@.subrange(
                after as int,
                n as int,
            ));
            if after < n && is_hex_digit_exec(cs[after]) {
                let ghost out0 = out@;
                let mut k: usize = i;
                while k < after
                    invariant
                        i <= k <= after,
                        after < n,
                        n == cs@.len(),
                        out@ == out0 + cs@.subrange(i as int, k as int),
                    decreases after - k,
                {
                    push_char(&mut out, cs[k]);
                    assert(cs@.subrange(i as int, k + 1) =~= cs@.subrange(i as int, k as int).push(
                        cs@[k as int],
                    ));
                    k = k + 1;
                }
                assert(c.subrange(0, flen as int) =~= cs@.subrange(i as int, after as int));
            } else {
                out.append(to);
            }
            i = after;
        } else {
            assert(c.subrange(1, c.len() as int) =~= cs@.subrange(i + 1, n as int));
            push_char(&mut out, cs[i]);
            i = i + 1;
        }
    }
    assert(cs@.subrange(n as int, n as int).len() == 0);
    out
}

/// The short form `#RGB` of `hex` when it has seven characters and each channel
/// repeats one digit; `None` otherwise.
pub fn to_short_hex(hex: &str) -> (r: Option<String>)
    ensures
        match r {
            Some(s) => short_form(hex@) == Some(s@),
            None => short_form(hex@) is None,
        },
{
    let h = chars_of(hex);
    if h.len() != 7 || h[0] != '#' {
        return None;
    }
    let mut k: usize = 1;
    while k < 7
        invariant
            1 <= k <= 7,
            h@.len() == 7,
            h@ == hex@,
            forall|j: int| 1 <= j < k ==> is_hex_digit(#[trigger] h@[j]),
        decreases 7 - k,
    {
        if !is_hex_digit_exec(h[k]) {
            assert(!is_hex_digit(hex@[k as int]));
            assert(!is_hex_color(hex@));
            return None;
        }
        k = k + 1;
    }
    if h[1] == h[2] && h[3] == h[4] && h[5] == h[6] {
        let mut s = String::new();
        push_char(&mut s, '#');
        push_char(&mut s, h[1]);
        push_char(&mut s, h[3]);
        push_char(&mut s, h[5]);
        assert(s@ =~= seq!['#', h@[1], h@[3], h@[5]]);
        Some(s)
    } else {
        None
    }
}

/// Every mapping's source is color text (`#` and hex digits).
pub open spec fn sources_are_color_text(ms: Seq<(String, String)>) -> bool {
    forall|k: int| 0 <= k < ms.len() ==> is_color_text((#[trigger] ms[k]).0@)
}

/// Applies the color mappings to `content` in list order, each one to the output of
/// the one before.
pub fn apply_color_mappings(content: &str, mappings: &[(String, String)]) -> (r: String)
    requires
        sources_are_color_text(mappings@),
    ensures
        r@ == mapped(content@, mappings@),
{
    let mut result = String::from_str(content);
    let mut i: usize = 0;
    assert(mappings@.subrange(0, mappings@.len() as int) =~= mappings@);
    while i < mappings.len()
        invariant
            i <= mappings@.len(),
            sources_are_color_text(mappings@),
            mapped(result@, mappings@.subrange(i as int, mappings@.len() as int)) == mapped(
                content@,
                mappings@,
            ),
        decreases mappings@.len() - i,
    {
        let ghost tail = mappings@.subrange(i as int, mappings@.len() as int);
        assert(tail.drop_first() =~= mappings@.subrange(i + 1, mappings@.len() as int));
        let original = &mappings[i].0;
        let replacement = &mappings[i].1;
        assert(is_color_text(original@)) by {
            assert(mappings@[i as int] == mappings[i as int]);
        }
        result = replace_color_insensitive(result.as_str(), original.as_str(), replacement.as_str());
        match to_short_hex(original.as_str()) {
            Some(short_original) => {
                let short_replacement = match to_short_hex(replacement.as_str()) {
                    Some(s) => s,
                    None => replacement.clone(),
                };
                result = replace_color_insensitive(
                    result.as_str(),
                    short_original.as_str(),
                    short_replacement.as_str(),
                );
            },
            None => {},
        }
        i = i + 1;
    }
    result
}

/// An empty mapping list leaves any content as it is; in particular the output of
/// any mapping run is a fixed point of the empty list.
pub proof fn lemma_empty_mappings_fixed_point(c: Seq<char>, ms: Seq<(String, String)>)
    ensures
        mapped(c, Seq::empty()) == c,
        mapped(mapped(c, ms), Seq::empty()) == mapped(c, ms),
{
}

/// Where `from` does not occur in `c`, replacing it changes nothing.
pub proof fn lemma_no_occurrence_unchanged(c: Seq<char>, from: Seq<char>, to: Seq<char>)
    requires
        from.len() > 0,
        forall|i: int|
            0 <= i < c.len() ==> !#[trigger] starts_with_folded(c.subrange(i, c.len() as int), from),
    ensures
        replaced(c, from, to) == c,
    decreases c.len(),
{
    if c.len() > 0 {
        let rest = c.subrange(1, c.len() as int);
        assert(c.subrange(0, c.len() as int) =~= c);
        assert forall|i: int| 0 <= i < rest.len() implies !#[trigger] starts_with_folded(
            rest.subrange(i, rest.len() as int),
            from,
        ) by {
            assert(rest.subrange(i, rest.len() as int) =~= c.subrange(i + 1, c.len() as int));
        }
        lemma_no_occurrence_unchanged(rest, from, to);
        assert(seq![c[0]] + rest =~= c);
    }
}

/// A single mapping whose two colors both have a short form, applied to content where
/// the full source color does not occur, replaces the short source form by the short
/// target form and changes nothing else.
pub proof fn lemma_short_form_only(c: Seq<char>, m: (String, String))
    requires
        m.0@.len() > 0,
        forall|i: int|
            0 <= i < c.len() ==> !#[trigger] starts_with_folded(c.subrange(i, c.len() as int), m.0@),
        short_form(m.0@) is Some,
        short_form(m.1@) is Some,
    ensures
        mapped(c, seq![m]) == replaced(c, short_form(m.0@)->0, short_form(m.1@)->0),
{
    lemma_no_occurrence_unchanged(c, m.0@, m.1@);
    let ms = seq![m];
    assert(ms[0] == m);
    assert(ms.drop_first() =~= Seq::<(String, String)>::empty());
    let once = mapped_once(c, m.0@, m.1@);
    assert(once == replaced(c, short_form(m.0@)->0, short_form(m.1@)->0));
    assert(mapped(c, ms) == mapped(once, ms.drop_first()));
    assert(mapped(once, Seq::<(String, String)>::empty()) == once);
}

} // verus!
