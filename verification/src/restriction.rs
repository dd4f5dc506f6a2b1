//! Variable restrictions mined from sampled solutions: a single-variable
//! assignment or a two-variable (in)equality, rendered as DIMACS clause
//! lines that tighten the formula before exact counting.

use vstd::prelude::*;
use vstd::string::StringExecFns;

verus! {

/// The relation a restriction imposes.
#[derive(Clone, Copy, Debug, PartialEq, Eq, Structural)]
pub enum RestrictionOp {
    /// The two variables take the same value.
    Equal,
    /// The two variables take different values.
    NotEqual,
    /// The variable is true.
    AssignTrue,
    /// The variable is false.
    AssignFalse,
}

/// A restriction over one or two 0-indexed variables.
pub struct Restriction {
    /// The first variable.
    pub x: Option<usize>,
    /// The second variable, for the two-variable operators.
    pub y: Option<usize>,
    /// The imposed relation.
    pub op: RestrictionOp,
}

/// The digit character for a value below ten.
pub open spec fn dec_digit(d: nat) -> char {
    if d == 0 {
        '0'
    } else if d == 1 {
        '1'
    } else if d == 2 {
        '2'
    } else if d == 3 {
        '3'
    } else if d == 4 {
        '4'
    } else if d == 5 {
        '5'
    } else if d == 6 {
        '6'
    } else if d == 7 {
        '7'
    } else if d == 8 {
        '8'
    } else {
        '9'
    }
}

/// The decimal digits of `v`, most significant first.
pub open spec fn dec_rep(v: nat) -> Seq<char>
    decreases v,
{
    if v < 10 {
        seq![dec_digit(v)]
    } else {
        dec_rep(v / 10).push(dec_digit(v % 10))
    }
}

/// The one-character string for a digit.
fn digit_str(d: usize) -> (r: &'static str)
    requires
        d < 10,
    ensures
        r@ == seq![dec_digit(d as nat)],
{
    let r: &'static str = match d {
        0 => "0",
        1 => "1",
        2 => "2",
        3 => "3",
        4 => "4",
        5 => "5",
        6 => "6",
        7 => "7",
        8 => "8",
        _ => "9",
    };
    proof {
        reveal_strlit("0");
        reveal_strlit("1");
        reveal_strlit("2");
        reveal_strlit("3");
        reveal_strlit("4");
        reveal_strlit("5");
        reveal_strlit("6");
        reveal_strlit("7");
        reveal_strlit("8");
        reveal_strlit("9");
        assert(r@ =~= seq![dec_digit(d as nat)]);
    }
    r
}

/// Appends the decimal form of `v` to `s`.
fn push_dec(s: &mut String, v: usize)
    ensures
        final(s)@ == old(s)@ + dec_rep(v as nat),
    decreases v,
{
    if v < 10 {
        s.append(digit_str(v));
        proof {
            assert(s@ =~= old(s)@ + dec_rep(v as nat));
        }
    } else {
        push_dec(s, v / 10);
        s.append(digit_str(v % 10));
        proof {
            assert(s@ =~= old(s)@ + dec_rep(v as nat));
        }
    }
}

/// The decimal form of `v` as a fresh string.
pub fn usize_to_string(v: usize) -> (r: String)
    ensures
        r@ == dec_rep(v as nat),
{
    let mut s = String::new();
    push_dec(&mut s, v);
    proof {
        assert(s@ =~= dec_rep(v as nat));
    }
    s
}

impl Restriction {
    /// The shapes the operators demand of the variable slots.
    pub open spec fn wf(self) -> bool {
        &&& (self.op is AssignTrue || self.op is AssignFalse) ==> self.x is Some && self.y is None
        &&& (self.op is Equal || self.op is NotEqual) ==> self.x is Some && self.y is Some
        &&& (self.x matches Option::Some(v) ==> v < usize::MAX)
        &&& (self.y matches Option::Some(v) ==> v < usize::MAX)
    }

    /// Packs the fields of a restriction.
    pub fn new(x: Option<usize>, y: Option<usize>, op: RestrictionOp) -> (r: Restriction)
        ensures
            r.x == x,
            r.y == y,
            r.op == op,
    {
        Restriction { x, y, op }
    }

    /// The complementary restriction: the same variables under the negated
    /// relation.
    pub fn flip(&self) -> (r: Restriction)
        ensures
            r.x == self.x,
            r.y == self.y,
            r.op == (match self.op {
                RestrictionOp::Equal => RestrictionOp::NotEqual,
                RestrictionOp::NotEqual => RestrictionOp::Equal,
                RestrictionOp::AssignTrue => RestrictionOp::AssignFalse,
                RestrictionOp::AssignFalse => RestrictionOp::AssignTrue,
            }),
    {
        let new_op = match self.op {
            RestrictionOp::Equal => RestrictionOp::NotEqual,
            RestrictionOp::NotEqual => RestrictionOp::Equal,
            RestrictionOp::AssignTrue => RestrictionOp::AssignFalse,
            RestrictionOp::AssignFalse => RestrictionOp::AssignTrue,
        };
        Restriction { x: self.x, y: self.y, op: new_op }
    }

    /// The DIMACS clause lines enforcing the restriction, over 1-indexed
    /// variables: one unit clause for an assignment, two binary clauses for
    /// an (in)equality.
    pub fn to_dimacs_lines(&self) -> (r: Vec<String>)
        requires
            self.wf(),
        ensures
            self.op is AssignTrue ==> r@.len() == 1 && r@[0]@ == dec_rep(
                (self.x->Some_0 + 1) as nat,
            ) + " 0"@,
            self.op is AssignFalse ==> r@.len() == 1 && r@[0]@ == "-"@ + dec_rep(
                (self.x->Some_0 + 1) as nat,
            ) + " 0"@,
            self.op is Equal ==> r@.len() == 2 && r@[0]@ == "-"@ + dec_rep(
                (self.x->Some_0 + 1) as nat,
            ) + " "@ + dec_rep((self.y->Some_0 + 1) as nat) + " 0"@ && r@[1]@ == dec_rep(
                (self.x->Some_0 + 1) as nat,
            ) + " -"@ + dec_rep((self.y->Some_0 + 1) as nat) + " 0"@,
            self.op is NotEqual ==> r@.len() == 2 && r@[0]@ == dec_rep(
                (self.x->Some_0 + 1) as nat,
            ) + " "@ + dec_rep((self.y->Some_0 + 1) as nat) + " 0"@ && r@[1]@ == "-"@ + dec_rep(
                (self.x->Some_0 + 1) as nat,
            ) + " -"@ + dec_rep((self.y->Some_0 + 1) as nat) + " 0"@,
    {
        let mut lines: Vec<String> = Vec::new();
        match self.op {
            RestrictionOp::AssignTrue => {
                let x = match self.x {
                    Some(v) => v,
                    None => {
                        proof {
                            assert(false);
                        }
                        0
                    },
                };
                let mut s = String::new();
                push_dec(&mut s, x + 1);
                s.append(" 0");
                proof {
                    assert(s@ =~= dec_rep((x + 1) as nat) + " 0"@);
                }
                lines.push(s);
            },
            RestrictionOp::AssignFalse => {
                let x = match self.x {
                    Some(v) => v,
                    None => {
                        proof {
                            assert(false);
                        }
                        0
                    },
                };
                let mut s = String::new();
                s.append("-");
                push_dec(&mut s, x + 1);
                s.append(" 0");
                proof {
                    assert(s@ =~= "-"@ + dec_rep((x + 1) as nat) + " 0"@);
                }
                lines.push(s);
            },
            RestrictionOp::Equal => {
                let x = match self.x {
                    Some(v) => v,
                    None => {
                        proof {
                            assert(false);
                        }
                        0
                    },
                };
                let y = match self.y {
                    Some(v) => v,
                    None => {
                        proof {
                            assert(false);
                        }
                        0
                    },
                };
                let mut s1 = String::new();
                s1.append("-");
                push_dec(&mut s1, x + 1);
                s1.append(" ");
                push_dec(&mut s1, y + 1);
                s1.append(" 0");
                proof {
                    assert(s1@ =~= "-"@ + dec_rep((x + 1) as nat) + " "@ + dec_rep((y + 1) as nat)
                        + " 0"@);
                }
                lines.push(s1);
                let mut s2 = String::new();
                push_dec(&mut s2, x + 1);
                s2.append(" -");
                push_dec(&mut s2, y + 1);
                s2.append(" 0");
                proof {
                    assert(s2@ =~= dec_rep((x + 1) as nat) + " -"@ + dec_rep((y + 1) as nat)
                        + " 0"@);
                }
                lines.push(s2);
            },
            RestrictionOp::NotEqual => {
                let x = match self.x {
                    Some(v) => v,
                    None => {
                        proof {
                            assert(false);
                        }
                        0
                    },
                };
                let y = match self.y {
                    Some(v) => v,
                    None => {
                        proof {
                            assert(false);
                        }
                        0
                    },
                };
                let mut s1 = String::new();
                push_dec(&mut s1, x + 1);
                s1.append(" ");
                push_dec(&mut s1, y + 1);
                s1.append(" 0");
                proof {
                    assert(s1@ =~= dec_rep((x + 1) as nat) + " "@ + dec_rep((y + 1) as nat)
                        + " 0"@);
                }
                lines.push(s1);
                let mut s2 = String::new();
                s2.append("-");
                push_dec(&mut s2, x + 1);
                s2.append(" -");
                push_dec(&mut s2, y + 1);
                s2.append(" 0");
                proof {
                    assert(s2@ =~= "-"@ + dec_rep((x + 1) as nat) + " -"@ + dec_rep((y + 1) as nat)
                        + " 0"@);
                }
                lines.push(s2);
            },
        }
        lines
    }
}

} // verus!
