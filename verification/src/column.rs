//! The column model: a tagged value (number or text) with a deterministic
//! total order, used as the index key by the indexer core.

use vstd::prelude::*;

verus! {

/// The mathematical model of a [`Column`]: a number is an unbounded integer,
/// a text value is its sequence of characters.
pub enum ColumnV {
    Number(int),
    Str(Seq<char>),
}

/// Column can either be an `i32` or a `String`.
pub enum Column {
    Number(i32),
    Str(String),
}

impl View for Column {
    type V = ColumnV;

    open spec fn view(&self) -> ColumnV {
        match self {
            Column::Number(n) => ColumnV::Number(*n as int),
            Column::Str(s) => ColumnV::Str(s@),
        }
    }
}

/// Strict lexicographic order on character sequences, comparing characters
/// by their code points.
pub open spec fn lex_lt(s: Seq<char>, t: Seq<char>) -> bool
    decreases s.len(),
{
    if t.len() == 0 {
        false
    } else if s.len() == 0 {
        true
    } else if s[0] < t[0] {
        true
    } else if s[0] == t[0] {
        lex_lt(s.skip(1), t.skip(1))
    } else {
        false
    }
}

/// The fixed total order on column values: every `Number` sorts before every
/// `Str`; numbers order numerically and text orders lexicographically.
pub open spec fn col_lt(a: ColumnV, b: ColumnV) -> bool {
    match (a, b) {
        (ColumnV::Number(x), ColumnV::Number(y)) => x < y,
        (ColumnV::Number(_), ColumnV::Str(_)) => true,
        (ColumnV::Str(_), ColumnV::Number(_)) => false,
        (ColumnV::Str(x), ColumnV::Str(y)) => lex_lt(x, y),
    }
}

pub proof fn lemma_lex_lt_irrefl(s: Seq<char>)
    ensures
        !lex_lt(s, s),
    decreases s.len(),
{
    if s.len() > 0 {
        lemma_lex_lt_irrefl(s.skip(1));
    }
}

pub proof fn lemma_lex_lt_asymmetric(s: Seq<char>, t: Seq<char>)
    requires
        lex_lt(s, t),
    ensures
        !lex_lt(t, s),
    decreases s.len(),
{
    if s.len() > 0 && t.len() > 0 && s[0] == t[0] {
        lemma_lex_lt_asymmetric(s.skip(1), t.skip(1));
    }
}

pub proof fn lemma_lex_lt_connected(s: Seq<char>, t: Seq<char>)
    requires
        s != t,
    ensures
        lex_lt(s, t) || lex_lt(t, s),
    decreases s.len(),
{
    if s.len() == 0 && t.len() == 0 {
        assert(s =~= t);
    } else if s.len() > 0 && t.len() > 0 && s[0] == t[0] {
        if s.skip(1) == t.skip(1) {
            assert(s.skip(1).len() == t.skip(1).len());
            assert forall|i: int| 0 <= i < s.len() implies s[i] == t[i] by {
                if i >= 1 {
                    assert(s.skip(1)[i - 1] == t.skip(1)[i - 1]);
                }
            }
            assert(s =~= t);
        } else {
            lemma_lex_lt_connected(s.skip(1), t.skip(1));
        }
    }
}

pub proof fn lemma_lex_lt_transitive(s: Seq<char>, t: Seq<char>, u: Seq<char>)
    requires
        lex_lt(s, t),
        lex_lt(t, u),
    ensures
        lex_lt(s, u),
    decreases s.len(),
{
    if s.len() > 0 && t.len() > 0 && u.len() > 0 && s[0] == t[0] && t[0] == u[0] {
        lemma_lex_lt_transitive(s.skip(1), t.skip(1), u.skip(1));
    }
}

/// `col_lt` is a strict total order: irreflexive, asymmetric and connected.
pub proof fn lemma_col_lt_properties(a: ColumnV, b: ColumnV)
    ensures
        a == b ==> !col_lt(a, b),
        col_lt(a, b) ==> !col_lt(b, a),
        a != b ==> col_lt(a, b) || col_lt(b, a),
{
    match (a, b) {
        (ColumnV::Str(x), ColumnV::Str(y)) => {
            lemma_lex_lt_irrefl(x);
            if lex_lt(x, y) {
                lemma_lex_lt_asymmetric(x, y);
            }
            if x != y {
                lemma_lex_lt_connected(x, y);
            }
        },
        _ => {},
    }
}

pub proof fn lemma_col_lt_transitive(a: ColumnV, b: ColumnV, c: ColumnV)
    requires
        col_lt(a, b),
        col_lt(b, c),
    ensures
        col_lt(a, c),
{
    match (a, c) {
        (ColumnV::Str(x), ColumnV::Str(z)) => {
            match b {
                ColumnV::Str(y) => {
                    lemma_lex_lt_transitive(x, y, z);
                },
                ColumnV::Number(_) => {},
            }
        },
        _ => {},
    }
}

/// Lexicographic comparison of two string slices, character by character.
fn str_lt(a: &str, b: &str) -> (r: bool)
    ensures
        r == lex_lt(a@, b@),
{
    let a_len = a.unicode_len();
    let b_len = b.unicode_len();
    let mut i: usize = 0;
    proof {
        assert(a@.skip(0) =~= a@);
        assert(b@.skip(0) =~= b@);
    }
    loop
        invariant
            a_len == a@.len(),
            b_len == b@.len(),
            i <= a_len,
            i <= b_len,
            lex_lt(a@, b@) == lex_lt(a@.skip(i as int), b@.skip(i as int)),
        decreases a_len - i,
    {
        if i >= a_len {
            return i < b_len;
        }
        if i >= b_len {
            return false;
        }
        let ca = a.get_char(i);
        let cb = b.get_char(i);
        if ca < cb {
            return true;
        }
        if cb < ca {
            return false;
        }
        proof {
            assert(ca == cb);
            assert(a@.skip(i as int)[0] == ca);
            assert(b@.skip(i as int)[0] == cb);
            assert(a@.skip(i as int).skip(1) =~= a@.skip(i + 1));
            assert(b@.skip(i as int).skip(1) =~= b@.skip(i + 1));
        }
        i = i + 1;
    }
}

impl Column {
    /// Structural equality of two columns, decided at the model level.
    pub fn eq_value(&self, other: &Column) -> (r: bool)
        ensures
            r == (self@ == other@),
    {
        match (self, other) {
            (Column::Number(x), Column::Number(y)) => *x == *y,
            (Column::Str(x), Column::Str(y)) => x.eq(y),
            _ => false,
        }
    }

    /// Strict comparison of two columns in the fixed total order.
    pub fn lt_value(&self, other: &Column) -> (r: bool)
        ensures
            r == col_lt(self@, other@),
    {
        match (self, other) {
            (Column::Number(x), Column::Number(y)) => *x < *y,
            (Column::Number(_), Column::Str(_)) => true,
            (Column::Str(_), Column::Number(_)) => false,
            (Column::Str(x), Column::Str(y)) => str_lt(x.as_str(), y.as_str()),
        }
    }
}

impl Clone for Column {
    /// Cloning preserves the column's value.
    fn clone(&self) -> (r: Self)
        ensures
            r@ == self@,
    {
        match self {
            Column::Number(n) => Column::Number(*n),
            Column::Str(s) => Column::Str(s.clone()),
        }
    }
}

} // verus!
