//! Reading the values of a solver model.

use vstd::prelude::*;
use vstd::string::{StrSliceExecFns, StringExecFns};

use crate::smt::Value;
use crate::text::{first_from, lemma_first_from};

verus! {

/// The sort name under which the solver reports finite-field values.
pub open spec fn ff_sort_prefix() -> Seq<char> {
    "(_ FiniteField"@
}

/// Whether `r` is the value that the solver's model text `val` of sort
/// `typ` stands for: an integer keeps its text; a Boolean is `true` or
/// `false`; a finite-field value is written `#f<digits>m<modulus>` and keeps
/// the digits. `None` where the text is none of these.
pub open spec fn parsed_as(r: Option<Value>, typ: Seq<char>, val: Seq<char>) -> bool {
    if typ == "Int"@ {
        r matches Some(Value::Int(s)) && s@ == val
    } else if typ == "Bool"@ {
        if val == "true"@ {
            r matches Some(Value::Bool(true))
        } else if val == "false"@ {
            r matches Some(Value::Bool(false))
        } else {
            r is None
        }
    } else if ff_sort_prefix().is_prefix_of(typ) {
        match first_from(val, 'm', 0) {
            Some(k) => if "#f"@.is_prefix_of(val.take(k as int)) {
                r matches Some(Value::FField(s)) && s@ == val.subrange(2, k as int)
            } else {
                r is None
            },
            None => r is None,
        }
    } else {
        r is None
    }
}

fn str_eq(a: &str, b: &str) -> (r: bool)
    ensures
        r == (a@ == b@),
{
    a.to_owned() == b.to_owned()
}

/// Whether `p` begins `s`.
fn has_prefix(s: &str, p: &str) -> (r: bool)
    ensures
        r == p@.is_prefix_of(s@),
{
    let n = p.unicode_len();
    if s.unicode_len() < n {
        return false;
    }
    let head = s.substring_char(0, n);
    let r = str_eq(head, p);
    assert(r == p@.is_prefix_of(s@)) by {
        if r {
            assert(s@.take(n as int) =~= p@);
        } else {
            assert(s@.take(n as int) =~= head@);
        }
    }
    r
}

/// The position of the first `x` in `s`.
fn find_char(s: &str, x: char) -> (r: Option<usize>)
    ensures
        r matches Some(k) ==> first_from(s@, x, 0) == Some(k as nat),
        r is None ==> first_from(s@, x, 0) is None,
{
    let n = s.unicode_len();
    let mut i: usize = 0;
    while i < n
        invariant
            n == s@.len(),
            i <= n,
            first_from(s@, x, 0) == first_from(s@, x, i as nat),
        decreases n - i,
    {
        if s.get_char(i) == x {
            return Some(i);
        }
        i = i + 1;
    }
    None
}

/// The value of one entry of a solver model, from the entry's sort and value
/// texts. `None` for a sort or a value of another form.
pub fn parse_model_value(typ: &str, val: &str) -> (r: Option<Value>)
    ensures
        parsed_as(r, typ@, val@),
{
    proof {
        reveal_strlit("Int");
        reveal_strlit("Bool");
        reveal_strlit("true");
        reveal_strlit("false");
        reveal_strlit("(_ FiniteField");
        reveal_strlit("#f");
    }
    if str_eq(typ, "Int") {
        Some(Value::Int(val.to_owned()))
    } else if str_eq(typ, "Bool") {
        if str_eq(val, "true") {
            Some(Value::Bool(true))
        } else if str_eq(val, "false") {
            Some(Value::Bool(false))
        } else {
            None
        }
    } else if has_prefix(typ, "(_ FiniteField") {
        match find_char(val, 'm') {
            Some(k) => {
                proof { lemma_first_from(val@, 'm', 0); }
                let head = val.substring_char(0, k);
                if has_prefix(head, "#f") {
                    let digits = head.substring_char(2, k);
                    assert(digits@ =~= val@.subrange(2, k as int));
                    Some(Value::FField(digits.to_owned()))
                } else {
                    assert(head@ =~= val@.take(k as int));
                    None
                }
            },
            None => None,
        }
    } else {
        None
    }
}

/// Reading back a field element from the solver: the model text
/// `#f<digits>m<modulus>` of a value of sort `(_ FiniteField <modulus>)`
/// gives the digits back, for digits without an `m`.
pub proof fn lemma_field_value_read_back(r: Option<Value>, digits: Seq<char>, modulus: Seq<char>)
    requires
        !digits.contains('m'),
        parsed_as(r, ff_sort_prefix() + " "@ + modulus + ")"@, "#f"@ + digits + "m"@ + modulus),
    ensures
        r matches Some(Value::FField(s)) && s@ == digits,
{
    reveal_strlit("#f");
    reveal_strlit("m");
    reveal_strlit("Int");
    reveal_strlit("Bool");
    reveal_strlit("(_ FiniteField");
    let val = "#f"@ + digits + "m"@ + modulus;
    let typ = ff_sort_prefix() + " "@ + modulus + ")"@;
    let k = digits.len() + 2;
    assert forall|j: nat| 2 <= j < k implies val[j as int] != 'm' by {
        assert(val[j as int] == digits[j - 2]);
    }
    lemma_first_from_skips(val, 'm', 2, k as nat);
    assert(val[0] == '#');
    assert(val[1] == 'f');
    assert(first_from(val, 'm', 0) == first_from(val, 'm', 1));
    assert(first_from(val, 'm', 1) == first_from(val, 'm', 2));
    assert(val[k as int] == 'm');
    assert(first_from(val, 'm', k as nat) == Some(k as nat));
    assert("#f"@.is_prefix_of(val.take(k as int)));
    assert(val.subrange(2, k as int) =~= digits);
    assert(typ[0] == '(');
    assert(ff_sort_prefix().is_prefix_of(typ)) by {
        assert(typ.take(ff_sort_prefix().len() as int) =~= ff_sort_prefix());
    }
}

/// Skipping items that are not `x` does not change the first position of `x`.
proof fn lemma_first_from_skips(s: Seq<char>, x: char, i: nat, k: nat)
    requires
        i <= k <= s.len(),
        forall|j: nat| i <= j < k ==> s[j as int] != x,
    ensures
        first_from(s, x, i) == first_from(s, x, k),
    decreases k - i,
{
    if i < k {
        lemma_first_from_skips(s, x, i + 1, k);
    }
}

} // verus!
