//! The box a pane paints into: which border it draws and how much
//! padding sits inside it.
use vstd::prelude::*;
use vstd::string::*;

use crate::text::{
    chars_eq_ignore_ascii_case, chars_of, debug_quote, debug_str, decimal, exec_is_ws, is_digit, is_ws, lemma_decimal_digits, parse_u64,
    parse_u64_spec, eq_ignore_ascii_case,
};

verus! {

broadcast use vstd::string::group_string_axioms;

/// A pane's border style. `None` draws nothing and costs no cell.
#[derive(Clone, Copy, PartialEq, Eq, Debug, Structural)]
pub enum BorderPreset {
    NoBorder,
    Normal,
    Rounded,
    Thick,
    Double,
}

/// The name each preset is written with, in the order they are listed.
pub open spec fn preset_rows() -> Seq<(Seq<char>, BorderPreset)> {
    seq![
        ("none"@, BorderPreset::NoBorder),
        ("normal"@, BorderPreset::Normal),
        ("rounded"@, BorderPreset::Rounded),
        ("thick"@, BorderPreset::Thick),
        ("double"@, BorderPreset::Double),
    ]
}

/// The first preset whose name matches `s`, ignoring ASCII case.
pub open spec fn preset_named_from(s: Seq<char>, i: int) -> Option<BorderPreset>
    decreases 5 - i,
{
    if i < 0 || i >= 5 {
        None
    } else if eq_ignore_ascii_case(s, preset_rows()[i].0) {
        Some(preset_rows()[i].1)
    } else {
        preset_named_from(s, i + 1)
    }
}

impl BorderPreset {
    /// Whether the preset draws an edge at all.
    pub open spec fn draws_spec(&self) -> bool {
        !(*self is NoBorder)
    }

    pub fn draws(&self) -> (b: bool)
        ensures
            b == self.draws_spec(),
    {
        !matches!(self, BorderPreset::NoBorder)
    }

    /// The preset a word names, ignoring ASCII case.
    pub fn from_name(token: &str) -> (r: Option<BorderPreset>)
        ensures
            r == preset_named_from(token@, 0),
    {
        let v = chars_of(token);
        proof { reveal_with_fuel(preset_named_from, 6); }
        if chars_eq_ignore_ascii_case(v.as_slice(), "none") {
            Some(BorderPreset::NoBorder)
        } else if chars_eq_ignore_ascii_case(v.as_slice(), "normal") {
            Some(BorderPreset::Normal)
        } else if chars_eq_ignore_ascii_case(v.as_slice(), "rounded") {
            Some(BorderPreset::Rounded)
        } else if chars_eq_ignore_ascii_case(v.as_slice(), "thick") {
            Some(BorderPreset::Thick)
        } else if chars_eq_ignore_ascii_case(v.as_slice(), "double") {
            Some(BorderPreset::Double)
        } else {
            None
        }
    }
}

/// The words every preset is written with, joined as an error lists them.
pub open spec fn preset_names_text() -> Seq<char> {
    "none, normal, rounded, thick, double"@
}

pub fn preset_names() -> (s: &'static str)
    ensures
        s@ == preset_names_text(),
{
    "none, normal, rounded, thick, double"
}

/// Cells on each side of a box's content.
#[derive(Clone, Copy, PartialEq, Eq, Debug, Structural)]
pub struct Sides {
    pub top: usize,
    pub right: usize,
    pub bottom: usize,
    pub left: usize,
}

impl Default for Sides {
    fn default() -> (s: Sides)
        ensures
            s.top == 0 && s.right == 0 && s.bottom == 0 && s.left == 0,
    {
        Sides { top: 0, right: 0, bottom: 0, left: 0 }
    }
}

/// `s` cut at whitespace into its words, in order.
pub open spec fn words(s: Seq<char>) -> Seq<Seq<char>> {
    let (done, cur) = words_state(s);
    if cur.len() > 0 { done.push(cur) } else { done }
}

pub open spec fn words_state(s: Seq<char>) -> (Seq<Seq<char>>, Seq<char>)
    decreases s.len(),
{
    if s.len() == 0 {
        (seq![], seq![])
    } else {
        let (done, cur) = words_state(s.drop_last());
        if is_ws(s.last()) {
            if cur.len() > 0 { (done.push(cur), seq![]) } else { (done, seq![]) }
        } else {
            (done, cur.push(s.last()))
        }
    }
}

/// The words of `s`, split at whitespace.
pub fn split_words(s: &[char]) -> (r: Vec<Vec<char>>)
    ensures
        r@.map_values(|w: Vec<char>| w@) == words(s@),
{
    let mut done: Vec<Vec<char>> = Vec::new();
    let mut cur: Vec<char> = Vec::new();
    let mut i: usize = 0;
    while i < s.len()
        invariant
            i <= s@.len(),
            (done@.map_values(|w: Vec<char>| w@), cur@) == words_state(s@.take(i as int)),
        decreases s@.len() - i,
    {
        assert(s@.take(i + 1).drop_last() =~= s@.take(i as int));
        if exec_is_ws(s[i]) {
            if cur.len() > 0 {
                let ghost before = done@;
                done.push(cur);
                assert(done@.map_values(|w: Vec<char>| w@) =~= before.map_values(|w: Vec<char>| w@).push(cur@));
                cur = Vec::new();
            } else {
                cur = Vec::new();
            }
        } else {
            cur.push(s[i]);
        }
        i = i + 1;
    }
    assert(s@.take(s@.len() as int) =~= s@);
    if cur.len() > 0 {
        let ghost before = done@;
        let ghost last = cur@;
        done.push(cur);
        assert(done@.map_values(|w: Vec<char>| w@) =~= before.map_values(|w: Vec<char>| w@).push(last));
    }
    done
}

/// A cell count as `str::parse::<usize>` reads it.
pub open spec fn parse_count(w: Seq<char>) -> Option<usize> {
    match parse_u64_spec(w) {
        Some(n) => if n <= usize::MAX { Some(n as usize) } else { None },
        None => None,
    }
}

/// The CSS shorthand: one value for every side, two for vertical and
/// horizontal, three for top, horizontal and bottom, four clockwise
/// from the top.
pub open spec fn sides_spec(token: Seq<char>) -> Option<Sides> {
    let w = words(token);
    if w.len() < 1 || w.len() > 4 {
        None
    } else if exists|i: int| 0 <= i < w.len() && parse_count(#[trigger] w[i]) is None {
        None
    } else {
        let n = |i: int| parse_count(w[i])->0;
        if w.len() == 1 {
            Some(Sides { top: n(0), right: n(0), bottom: n(0), left: n(0) })
        } else if w.len() == 2 {
            Some(Sides { top: n(0), right: n(1), bottom: n(0), left: n(1) })
        } else if w.len() == 3 {
            Some(Sides { top: n(0), right: n(1), bottom: n(2), left: n(1) })
        } else {
            Some(Sides { top: n(0), right: n(1), bottom: n(2), left: n(3) })
        }
    }
}

pub open spec fn sides_error(token: Seq<char>) -> Seq<char> {
    "invalid padding "@ + debug_str(token) + ": expected one to four cell counts, like \"0 1\""@
}

fn sides_refusal(token: &str) -> (e: String)
    ensures
        e@ == sides_error(token@),
{
    let mut e = String::from_str("invalid padding ");
    let q = debug_quote(token);
    e.append(q.as_str());
    e.append(": expected one to four cell counts, like \"0 1\"");
    e
}

/// `padding` shorthand: one to four cell counts, as CSS writes them.
pub fn parse_sides(token: &str) -> (r: Result<Sides, String>)
    ensures
        match sides_spec(token@) {
            Some(sides) => r == Ok::<Sides, String>(sides),
            None => r is Err && r->Err_0@ == sides_error(token@),
        },
{
    let chars = chars_of(token);
    let w = split_words(chars.as_slice());
    let ghost ws = words(token@);
    if w.len() < 1 || w.len() > 4 {
        return Err(sides_refusal(token));
    }
    let mut n: Vec<usize> = Vec::new();
    let mut i: usize = 0;
    while i < w.len()
        invariant
            i <= w@.len(),
            1 <= w@.len() <= 4,
            w@.map_values(|x: Vec<char>| x@) == ws,
            ws == words(token@),
            n@.len() == i,
            forall|j: int| 0 <= j < i ==> parse_count(#[trigger] ws[j]) == Some(n@[j]),
        decreases w@.len() - i,
    {
        assert(w@[i as int]@ == ws[i as int]);
        match parse_u64(w[i].as_slice()) {
            Some(v) => {
                if v > usize::MAX as u64 {
                    assert(parse_count(ws[i as int]) is None);
                    return Err(sides_refusal(token));
                }
                n.push(v as usize);
            },
            None => {
                assert(parse_count(ws[i as int]) is None);
                return Err(sides_refusal(token));
            },
        }
        i = i + 1;
    }
    let len = w.len();
    let sides = if len == 1 {
        Sides { top: n[0], right: n[0], bottom: n[0], left: n[0] }
    } else if len == 2 {
        Sides { top: n[0], right: n[1], bottom: n[0], left: n[1] }
    } else if len == 3 {
        Sides { top: n[0], right: n[1], bottom: n[2], left: n[1] }
    } else {
        Sides { top: n[0], right: n[1], bottom: n[2], left: n[3] }
    };
    Ok(sides)
}

proof fn lemma_words_state_word(s: Seq<char>, w: Seq<char>)
    requires
        forall|i: int| 0 <= i < w.len() ==> !is_ws(#[trigger] w[i]),
    ensures
        words_state(s + w) == (words_state(s).0, words_state(s).1 + w),
    decreases w.len(),
{
    if w.len() == 0 {
        assert(s + w =~= s);
        assert(words_state(s).1 + w =~= words_state(s).1);
    } else {
        assert forall|i: int| 0 <= i < w.drop_last().len() implies !is_ws(#[trigger] w.drop_last()[i]) by {
            assert(w.drop_last()[i] == w[i]);
        }
        lemma_words_state_word(s, w.drop_last());
        assert((s + w).drop_last() =~= s + w.drop_last());
        assert((s + w).last() == w.last());
        assert(!is_ws(w[w.len() - 1]));
        assert((words_state(s).1 + w.drop_last()).push(w.last()) =~= words_state(s).1 + w);
    }
}

proof fn lemma_words_state_space(s: Seq<char>)
    requires
        words_state(s).1.len() > 0,
    ensures
        words_state(s.push(' ')) == (words_state(s).0.push(words_state(s).1), Seq::<char>::empty()),
{
    assert(s.push(' ').drop_last() =~= s);
    assert(is_ws(' '));
}

/// A count's decimal spelling reads back as the count.
proof fn lemma_count_reads_back(x: usize)
    ensures
        parse_count(decimal(x as nat)) == Some(x),
        decimal(x as nat).len() >= 1,
        forall|i: int| 0 <= i < decimal(x as nat).len() ==> !is_ws(#[trigger] decimal(x as nat)[i]),
{
    lemma_decimal_digits(x as nat);
    let d = decimal(x as nat);
    assert(is_digit(d[0]));
    assert(d[0] != '+');
    assert(x as int <= u64::MAX);
}

/// Four padding values run clockwise from the top: top, right, bottom,
/// left, as CSS writes them.
pub proof fn law_four_paddings_run_clockwise(a: usize, b: usize, c: usize, d: usize)
    ensures
        sides_spec(decimal(a as nat) + seq![' '] + decimal(b as nat) + seq![' '] + decimal(c as nat) + seq![' '] + decimal(
            d as nat,
        )) == Some(Sides { top: a, right: b, bottom: c, left: d }),
{
    let (da, db, dc, dd) = (decimal(a as nat), decimal(b as nat), decimal(c as nat), decimal(d as nat));
    lemma_count_reads_back(a);
    lemma_count_reads_back(b);
    lemma_count_reads_back(c);
    lemma_count_reads_back(d);
    let e = Seq::<char>::empty();
    lemma_words_state_word(e, da);
    assert(e + da =~= da);
    assert(words_state(e) == (Seq::<Seq<char>>::empty(), Seq::<char>::empty()));
    assert(Seq::<char>::empty() + da =~= da);
    lemma_words_state_space(da);
    let s1 = da.push(' ');
    lemma_words_state_word(s1, db);
    assert(Seq::<char>::empty() + db =~= db);
    lemma_words_state_space(s1 + db);
    let s2 = (s1 + db).push(' ');
    lemma_words_state_word(s2, dc);
    assert(Seq::<char>::empty() + dc =~= dc);
    lemma_words_state_space(s2 + dc);
    let s3 = (s2 + dc).push(' ');
    lemma_words_state_word(s3, dd);
    assert(Seq::<char>::empty() + dd =~= dd);
    let t = da + seq![' '] + db + seq![' '] + dc + seq![' '] + dd;
    assert(t =~= s3 + dd);
    let w = words(t);
    assert(w =~= seq![da, db, dc, dd]);
    assert(parse_count(w[0]) == Some(a));
    assert(parse_count(w[1]) == Some(b));
    assert(parse_count(w[2]) == Some(c));
    assert(parse_count(w[3]) == Some(d));
}

/// Two padding values are the vertical and the horizontal sides.
pub proof fn law_two_paddings_are_vertical_then_horizontal(a: usize, b: usize)
    ensures
        sides_spec(decimal(a as nat) + seq![' '] + decimal(b as nat)) == Some(Sides { top: a, right: b, bottom: a, left: b }),
{
    let (da, db) = (decimal(a as nat), decimal(b as nat));
    lemma_count_reads_back(a);
    lemma_count_reads_back(b);
    let e = Seq::<char>::empty();
    lemma_words_state_word(e, da);
    assert(e + da =~= da);
    assert(Seq::<char>::empty() + da =~= da);
    lemma_words_state_space(da);
    let s1 = da.push(' ');
    lemma_words_state_word(s1, db);
    assert(Seq::<char>::empty() + db =~= db);
    let t = da + seq![' '] + db;
    assert(t =~= s1 + db);
    let w = words(t);
    assert(w =~= seq![da, db]);
    assert(parse_count(w[0]) == Some(a));
    assert(parse_count(w[1]) == Some(b));
}

/// One padding value pads every side alike.
pub proof fn law_one_padding_pads_every_side(a: usize)
    ensures
        sides_spec(decimal(a as nat)) == Some(Sides { top: a, right: a, bottom: a, left: a }),
{
    let da = decimal(a as nat);
    lemma_count_reads_back(a);
    let e = Seq::<char>::empty();
    lemma_words_state_word(e, da);
    assert(e + da =~= da);
    assert(Seq::<char>::empty() + da =~= da);
    let w = words(da);
    assert(w =~= seq![da]);
    assert(parse_count(w[0]) == Some(a));
}

/// Three padding values are the top, the horizontal sides, and the
/// bottom.
pub proof fn law_three_paddings_are_top_sides_bottom(a: usize, b: usize, c: usize)
    ensures
        sides_spec(decimal(a as nat) + seq![' '] + decimal(b as nat) + seq![' '] + decimal(c as nat)) == Some(
            Sides { top: a, right: b, bottom: c, left: b },
        ),
{
    let (da, db, dc) = (decimal(a as nat), decimal(b as nat), decimal(c as nat));
    lemma_count_reads_back(a);
    lemma_count_reads_back(b);
    lemma_count_reads_back(c);
    let e = Seq::<char>::empty();
    lemma_words_state_word(e, da);
    assert(e + da =~= da);
    assert(Seq::<char>::empty() + da =~= da);
    lemma_words_state_space(da);
    let s1 = da.push(' ');
    lemma_words_state_word(s1, db);
    assert(Seq::<char>::empty() + db =~= db);
    lemma_words_state_space(s1 + db);
    let s2 = (s1 + db).push(' ');
    lemma_words_state_word(s2, dc);
    assert(Seq::<char>::empty() + dc =~= dc);
    let t = da + seq![' '] + db + seq![' '] + dc;
    assert(t =~= s2 + dc);
    let w = words(t);
    assert(w =~= seq![da, db, dc]);
    assert(parse_count(w[0]) == Some(a));
    assert(parse_count(w[1]) == Some(b));
    assert(parse_count(w[2]) == Some(c));
}

} // verus!
