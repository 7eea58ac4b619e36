//! Read-only textual dump of the list contents, for diagnostics: a fixed
//! header followed by each live value in chain order. Not a serialization
//! format; the exact shape carries no compatibility guarantee.

use crate::list::List;
use vstd::prelude::*;
use vstd::string::StringExecFns;

verus! {

/// The decimal rendering of `x`, as produced by `i64`'s standard
/// formatting.
pub uninterp spec fn decimal_of(x: i64) -> Seq<char>;

/// Relies on `ToString::to_string` via `i64`'s `Display` implementation:
/// the decimal digits produced depend on the value alone.
#[verifier::external_body]
fn i64_to_string(x: i64) -> (r: String)
    ensures
        r@ == decimal_of(x),
{
    x.to_string()
}

/// The dump of the values `vals`: the header, then each value's decimal
/// form followed by a comma and a space, head to tail.
pub open spec fn render_spec(vals: Seq<i64>) -> Seq<char>
    decreases vals.len(),
{
    if vals.len() == 0 {
        "List :"@
    } else {
        render_spec(vals.drop_last()) + decimal_of(vals.last()) + ", "@
    }
}

impl List {
    /// Renders the current values head to tail, for diagnostics; reads the
    /// list without changing it.
    pub fn render(&self) -> (r: String)
        requires
            self.wf(),
        ensures
            r@ == render_spec(self@),
    {
        let vals = self.to_vec();
        let mut out: String = <String as StringExecFns>::from_str("List :");
        let mut k: usize = 0;
        while k < vals.len()
            invariant
                vals@ == self@,
                k <= vals@.len(),
                out@ == render_spec(vals@.subrange(0, k as int)),
            decreases vals@.len() - k,
        {
            let d = i64_to_string(vals[k]);
            out.append(d.as_str());
            out.append(", ");
            proof {
                let t = vals@.subrange(0, (k + 1) as int);
                assert(t.drop_last() =~= vals@.subrange(0, k as int));
                assert(t.last() == vals@[k as int]);
            }
            k = k + 1;
        }
        proof {
            assert(vals@.subrange(0, vals@.len() as int) =~= vals@);
        }
        out
    }
}

} // verus!
