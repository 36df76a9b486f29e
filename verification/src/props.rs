//! Property values and the two per-entity stores: a constant map and a
//! per-name temporal history of `(time, value)` observations.

use vstd::prelude::*;

verus! {

/// A property value. Floating-point observations are carried as raw IEEE-754
/// bit patterns; turning them back into numbers is the caller's concern, so
/// the store itself stays free of floating-point arithmetic.
#[derive(PartialEq, Eq, Debug)]
pub enum Prop {
    Bool(bool),
    I32(i32),
    I64(i64),
    U32(u32),
    U64(u64),
    F32Bits(u32),
    F64Bits(u64),
    Str(String),
}

/// The mathematical value of a property: the same tagged union with the
/// string replaced by its character sequence.
pub ghost enum PropV {
    Bool(bool),
    I32(i32),
    I64(i64),
    U32(u32),
    U64(u64),
    F32Bits(u32),
    F64Bits(u64),
    Str(Seq<char>),
}

impl View for Prop {
    type V = PropV;

    open spec fn view(&self) -> PropV {
        match self {
            Prop::Bool(b) => PropV::Bool(*b),
            Prop::I32(x) => PropV::I32(*x),
            Prop::I64(x) => PropV::I64(*x),
            Prop::U32(x) => PropV::U32(*x),
            Prop::U64(x) => PropV::U64(*x),
            Prop::F32Bits(x) => PropV::F32Bits(*x),
            Prop::F64Bits(x) => PropV::F64Bits(*x),
            Prop::Str(s) => PropV::Str(s@),
        }
    }
}

/// Which tag a property value carries.
pub ghost enum PropKind {
    Bool,
    I32,
    I64,
    U32,
    U64,
    F32,
    F64,
    Str,
}

/// True of every value but the two carried as raw float bits, which have no
/// display form inside the store.
pub open spec fn spec_displayable(p: PropV) -> bool {
    match p {
        PropV::F32Bits(_) => false,
        PropV::F64Bits(_) => false,
        _ => true,
    }
}

pub open spec fn kind_of(p: PropV) -> PropKind {
    match p {
        PropV::Bool(_) => PropKind::Bool,
        PropV::I32(_) => PropKind::I32,
        PropV::I64(_) => PropKind::I64,
        PropV::U32(_) => PropKind::U32,
        PropV::U64(_) => PropKind::U64,
        PropV::F32Bits(_) => PropKind::F32,
        PropV::F64Bits(_) => PropKind::F64,
        PropV::Str(_) => PropKind::Str,
    }
}

impl Clone for Prop {
    fn clone(&self) -> (r: Self)
        ensures
            r == *self,
    {
        match self {
            Prop::Bool(b) => Prop::Bool(*b),
            Prop::I32(x) => Prop::I32(*x),
            Prop::I64(x) => Prop::I64(*x),
            Prop::U32(x) => Prop::U32(*x),
            Prop::U64(x) => Prop::U64(*x),
            Prop::F32Bits(x) => Prop::F32Bits(*x),
            Prop::F64Bits(x) => Prop::F64Bits(*x),
            Prop::Str(s) => Prop::Str(s.clone()),
        }
    }
}

impl Prop {
    /// True when the two values carry the same tag, whatever they hold.
    pub fn same_kind(&self, other: &Prop) -> (r: bool)
        ensures
            r == (kind_of(self@) == kind_of(other@)),
    {
        match (self, other) {
            (Prop::Bool(_), Prop::Bool(_)) => true,
            (Prop::I32(_), Prop::I32(_)) => true,
            (Prop::I64(_), Prop::I64(_)) => true,
            (Prop::U32(_), Prop::U32(_)) => true,
            (Prop::U64(_), Prop::U64(_)) => true,
            (Prop::F32Bits(_), Prop::F32Bits(_)) => true,
            (Prop::F64Bits(_), Prop::F64Bits(_)) => true,
            (Prop::Str(_), Prop::Str(_)) => true,
            _ => false,
        }
    }

    /// Tag-and-value equality.
    pub fn value_eq(&self, other: &Prop) -> (r: bool)
        ensures
            r == (self@ == other@),
    {
        match (self, other) {
            (Prop::Bool(a), Prop::Bool(b)) => *a == *b,
            (Prop::I32(a), Prop::I32(b)) => *a == *b,
            (Prop::I64(a), Prop::I64(b)) => *a == *b,
            (Prop::U32(a), Prop::U32(b)) => *a == *b,
            (Prop::U64(a), Prop::U64(b)) => *a == *b,
            (Prop::F32Bits(a), Prop::F32Bits(b)) => *a == *b,
            (Prop::F64Bits(a), Prop::F64Bits(b)) => *a == *b,
            (Prop::Str(a), Prop::Str(b)) => a.eq(b),
            _ => false,
        }
    }

    /// The 64-bit float bits of a numeric-as-bits value, when it carries one.
    pub fn as_f64_bits(&self) -> (r: Option<u64>)
        ensures
            r == (match self@ {
                PropV::F64Bits(b) => Some(b),
                _ => None::<u64>,
            }),
    {
        match self {
            Prop::F64Bits(b) => Some(*b),
            _ => None,
        }
    }

    /// The value as an unsigned 64-bit integer, when it carries one.
    pub fn into_u64(&self) -> (r: Option<u64>)
        ensures
            r == (match self@ {
                PropV::U64(x) => Some(x),
                PropV::U32(x) => Some(x as u64),
                _ => None::<u64>,
            }),
    {
        match self {
            Prop::U64(x) => Some(*x),
            Prop::U32(x) => Some(*x as u64),
            _ => None,
        }
    }

    /// The display form of the value: decimal digits for the integers,
    /// `true`/`false` for booleans, the string itself for strings. Values
    /// carried as float bits have no display here and yield `None`.
    pub fn display_string(&self) -> (r: Option<String>)
        ensures
            r.is_some() == spec_displayable(self@),
            (match (r, self@) {
                (Some(out), PropV::Bool(b)) => out@ == spec_bool_str(b),
                (Some(out), PropV::I32(x)) => out@ == spec_i64_str(x as int),
                (Some(out), PropV::I64(x)) => out@ == spec_i64_str(x as int),
                (Some(out), PropV::U32(x)) => out@ == spec_dec_str(x as nat),
                (Some(out), PropV::U64(x)) => out@ == spec_dec_str(x as nat),
                (Some(out), PropV::Str(s)) => out@ == s,
                (None, _) => true,
                _ => false,
            }),
    {
        match self {
            Prop::Bool(b) => Some(bool_to_string(*b)),
            Prop::I32(x) => Some(i64_to_string(*x as i64)),
            Prop::I64(x) => Some(i64_to_string(*x)),
            Prop::U32(x) => Some(u64_to_string(*x as u64)),
            Prop::U64(x) => Some(u64_to_string(*x)),
            Prop::Str(s) => Some(s.clone()),
            Prop::F32Bits(_) => None,
            Prop::F64Bits(_) => None,
        }
    }
}

/// The decimal digit character for a value below ten.
pub open spec fn spec_digit(d: int) -> char {
    if d == 0 {
        '0'
    } else if d == 1 {
        '1'
    } else if d == 2 {
        '2'
    } else if d == 3 {
        '3'
    } else if d == 4 {
        '4'
    } else if d == 5 {
        '5'
    } else if d == 6 {
        '6'
    } else if d == 7 {
        '7'
    } else if d == 8 {
        '8'
    } else {
        '9'
    }
}

/// The decimal rendering of a natural number, most significant digit first.
pub open spec fn spec_dec_str(n: nat) -> Seq<char>
    decreases n,
{
    if n < 10 {
        seq![spec_digit(n as int)]
    } else {
        spec_dec_str(n / 10).push(spec_digit((n % 10) as int))
    }
}

/// The decimal rendering of a signed number: a minus sign before the digits
/// of the magnitude when negative.
pub open spec fn spec_i64_str(x: int) -> Seq<char> {
    if x < 0 {
        seq!['-'] + spec_dec_str((-x) as nat)
    } else {
        spec_dec_str(x as nat)
    }
}

pub open spec fn spec_bool_str(b: bool) -> Seq<char> {
    if b {
        "true"@
    } else {
        "false"@
    }
}

/// Relies on `String::push` of std: appends exactly the given character.
#[verifier::external_body]
pub(crate) fn push_char(s: &mut String, c: char)
    ensures
        final(s)@ == old(s)@.push(c),
{
    s.push(c);
}

fn digit_char(d: u64) -> (c: char)
    requires
        d < 10,
    ensures
        c == spec_digit(d as int),
{
    if d == 0 {
        '0'
    } else if d == 1 {
        '1'
    } else if d == 2 {
        '2'
    } else if d == 3 {
        '3'
    } else if d == 4 {
        '4'
    } else if d == 5 {
        '5'
    } else if d == 6 {
        '6'
    } else if d == 7 {
        '7'
    } else if d == 8 {
        '8'
    } else {
        '9'
    }
}

fn u64_dec_into(n: u64, out: &mut String)
    ensures
        final(out)@ == old(out)@ + spec_dec_str(n as nat),
    decreases n,
{
    if n >= 10 {
        u64_dec_into(n / 10, out);
    }
    push_char(out, digit_char(n % 10));
    proof {
        if n < 10 {
            assert(spec_dec_str(n as nat) == seq![spec_digit(n as int)]);
            assert(final(out)@ =~= old(out)@ + spec_dec_str(n as nat));
        } else {
            assert(final(out)@ =~= old(out)@ + spec_dec_str(n as nat));
        }
    }
}

/// The decimal digits of an unsigned number.
pub fn u64_to_string(n: u64) -> (r: String)
    ensures
        r@ == spec_dec_str(n as nat),
{
    let mut s = String::new();
    u64_dec_into(n, &mut s);
    proof {
        assert(s@ =~= spec_dec_str(n as nat));
    }
    s
}

/// The decimal rendering of a signed number.
pub fn i64_to_string(x: i64) -> (r: String)
    ensures
        r@ == spec_i64_str(x as int),
{
    if x >= 0 {
        u64_to_string(x as u64)
    } else {
        let mag: u64 = if x == i64::MIN {
            9223372036854775808u64
        } else {
            (-x) as u64
        };
        assert(mag as nat == (-(x as int)) as nat);
        let mut s = String::new();
        push_char(&mut s, '-');
        u64_dec_into(mag, &mut s);
        proof {
            assert(s@ =~= seq!['-'] + spec_dec_str((-(x as int)) as nat));
        }
        s
    }
}

fn bool_to_string(b: bool) -> (r: String)
    ensures
        r@ == spec_bool_str(b),
{
    if b {
        String::from_str("true")
    } else {
        String::from_str("false")
    }
}

} // verus!
