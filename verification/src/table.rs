//! The substitution table and the compression pass over an argument list.
//!
//! While one mangling pass scans its arguments left to right it threads a
//! table of the encodings already spelled out. An argument whose full
//! encoding already stands in the table is emitted as a back-reference
//! (`S0_`, `S1_`, ...); one whose referent behind the outer `R`/`P` stands
//! there is emitted as that letter plus a back-reference; anything else is
//! spelled out literally and registers its new component encodings.

use vstd::prelude::*;
use vstd::string::*;
use crate::descriptor::{
    base_code, has_outer, outer_char, partial_code, pod_code, spec_encode_arg, spec_is_pod, Arg,
    ArgView, is_pod, mangle_pod,
};
use crate::text::{dec_rec, usize_dec, views_of};

verus! {

/// The token of a back-reference to table index `i`.
pub open spec fn s_token(i: int) -> Seq<char>
    recommends
        i >= 0,
{
    seq!['S'] + dec_rec(i) + seq!['_']
}

/// The position of `x` in table `t`, if present: the first index holding it.
pub open spec fn find_entry(t: Seq<Seq<char>>, x: Seq<char>) -> Option<int>
    decreases t.len(),
{
    if t.len() == 0 {
        None
    } else if t[0] == x {
        Some(0)
    } else {
        match find_entry(t.drop_first(), x) {
            Some(i) => Some(i + 1),
            None => None,
        }
    }
}

/// What `find_entry` returns: the first index holding `x`, or `None` when
/// `x` stands nowhere in the table.
pub proof fn lemma_find_entry(t: Seq<Seq<char>>, x: Seq<char>)
    ensures
        match find_entry(t, x) {
            Some(i) => 0 <= i < t.len() && t[i] == x && forall|k: int| 0 <= k < i ==> t[k] != x,
            None => forall|k: int| 0 <= k < t.len() ==> t[k] != x,
        },
    decreases t.len(),
{
    if t.len() == 0 {
    } else if t[0] == x {
    } else {
        let u = t.drop_first();
        lemma_find_entry(u, x);
        match find_entry(u, x) {
            Some(i) => {
                assert(u[i] == t[i + 1]);
                assert forall|k: int| 0 <= k < i + 1 implies t[k] != x by {
                    if k >= 1 {
                        assert(u[k - 1] == t[k]);
                    }
                }
            },
            None => {
                assert forall|k: int| 0 <= k < t.len() implies t[k] != x by {
                    if k >= 1 {
                        assert(u[k - 1] == t[k]);
                    }
                }
            },
        }
    }
}

/// Whether one argument is encoded without consulting the table: a
/// fundamental type passed by value never touches it.
pub open spec fn skips_table(a: ArgView) -> bool {
    spec_is_pod(a.base_name) && !has_outer(a)
}

/// The token emitted for one argument against table `t`: an exact
/// back-reference when the full encoding is registered, an outer letter plus
/// a back-reference when only the referent behind it is, the literal
/// encoding otherwise.
pub open spec fn step_emit(t: Seq<Seq<char>>, a: ArgView) -> Seq<char> {
    if skips_table(a) {
        seq![pod_code(a.base_name)]
    } else {
        match find_entry(t, spec_encode_arg(a)) {
            Some(i) => s_token(i),
            None => if has_outer(a) {
                match find_entry(t, partial_code(a)) {
                    Some(i) => seq![outer_char(a)] + s_token(i),
                    None => spec_encode_arg(a),
                }
            } else {
                spec_encode_arg(a)
            },
        }
    }
}

/// The entries one argument appends to table `t`. A back-referenced
/// encoding registers nothing new beyond the compound resolved through a
/// partial match; a literal fundamental compound registers its inner const
/// form (if any) then itself; a literal named compound registers the bare
/// length-prefixed name (when new) then itself.
pub open spec fn step_regs(t: Seq<Seq<char>>, a: ArgView) -> Seq<Seq<char>> {
    if skips_table(a) {
        Seq::empty()
    } else {
        match find_entry(t, spec_encode_arg(a)) {
            Some(_) => Seq::empty(),
            None => if has_outer(a) && find_entry(t, partial_code(a)) is Some {
                seq![spec_encode_arg(a)]
            } else if spec_is_pod(a.base_name) {
                if a.is_const {
                    seq![partial_code(a), spec_encode_arg(a)]
                } else {
                    seq![spec_encode_arg(a)]
                }
            } else {
                if !has_outer(a) {
                    seq![spec_encode_arg(a)]
                } else if find_entry(t, base_code(a)) is Some {
                    seq![spec_encode_arg(a)]
                } else {
                    seq![base_code(a), spec_encode_arg(a)]
                }
            },
        }
    }
}

/// The table after one argument.
pub open spec fn step_table(t: Seq<Seq<char>>, a: ArgView) -> Seq<Seq<char>> {
    t + step_regs(t, a)
}

/// The concatenated tokens of an argument list processed left to right
/// against an initial table `t`.
pub open spec fn run_emit(t: Seq<Seq<char>>, args: Seq<ArgView>) -> Seq<char>
    decreases args.len(),
{
    if args.len() == 0 {
        Seq::empty()
    } else {
        step_emit(t, args[0]) + run_emit(step_table(t, args[0]), args.drop_first())
    }
}

/// The table after an argument list processed left to right from `t`.
pub open spec fn run_table(t: Seq<Seq<char>>, args: Seq<ArgView>) -> Seq<Seq<char>>
    decreases args.len(),
{
    if args.len() == 0 {
        t
    } else {
        run_table(step_table(t, args[0]), args.drop_first())
    }
}

/// The ordered argument list of one mangling pass.
pub struct Args {
    pub list: Vec<Arg>,
}

impl View for Args {
    type V = Seq<ArgView>;

    open spec fn view(&self) -> Seq<ArgView> {
        self.list@.map_values(|a: Arg| a@)
    }
}

/// Appends `S`, the decimal index, and `_` to `out`.
fn append_s_token(out: &mut String, i: usize)
    ensures
        final(out)@ == old(out)@ + s_token(i as int),
{
    out.append("S");
    let digits = usize_dec(i);
    out.append(digits.as_str());
    out.append("_");
    proof {
        reveal_strlit("S");
        reveal_strlit("_");
        assert("S"@ =~= seq!['S']);
        assert("_"@ =~= seq!['_']);
        assert(out@ =~= old(out)@ + s_token(i as int));
    }
}

/// The position of `x` in the table, if present.
fn find_str(table: &Vec<String>, x: &String) -> (r: Option<usize>)
    ensures
        match r {
            Some(i) => find_entry(views_of(table@), x@) == Some(i as int),
            None => find_entry(views_of(table@), x@) is None,
        },
{
    let ghost t = views_of(table@);
    let mut j: usize = 0;
    while j < table.len()
        invariant
            j <= table.len(),
            t == views_of(table@),
            t.len() == table.len(),
            forall|k: int| 0 <= k < j ==> t[k] != x@,
        decreases table.len() - j,
    {
        if table[j] == *x {
            proof {
                assert(t[j as int] == table@[j as int]@);
                lemma_find_entry(t, x@);
            }
            return Some(j);
        }
        proof {
            assert(t[j as int] == table@[j as int]@);
        }
        j = j + 1;
    }
    proof {
        lemma_find_entry(t, x@);
    }
    None
}

impl Args {
    /// Whether every argument descriptor in the list is well formed.
    pub open spec fn wf(&self) -> bool {
        forall|i: int| 0 <= i < self@.len() ==> self@[i].wf()
    }

    /// An empty argument list.
    pub fn new() -> (r: Args)
        ensures
            r@ == Seq::<ArgView>::empty(),
    {
        let r = Args { list: Vec::new() };
        proof {
            assert(r@ =~= Seq::<ArgView>::empty());
        }
        r
    }

    /// Appends a copy of one argument.
    pub fn push(&mut self, arg: &Arg)
        ensures
            final(self)@ == old(self)@.push(arg@),
    {
        self.list.push(
            Arg {
                is_reference: arg.is_reference,
                is_pointer: arg.is_pointer,
                is_const: arg.is_const,
                base_name: arg.base_name.clone(),
            },
        );
        proof {
            assert(self@ =~= old(self)@.push(arg@));
        }
    }

    /// Runs the compression pass: the emitted token string and the complete
    /// substitution table, both starting empty.
    fn process(&self) -> (r: (String, Vec<String>))
        requires
            self.wf(),
        ensures
            r.0@ == run_emit(Seq::empty(), self@),
            views_of(r.1@) == run_table(Seq::empty(), self@),
    {
        let mut out = String::new();
        let mut table: Vec<String> = Vec::new();
        let n = self.list.len();
        let mut idx: usize = 0;
        proof {
            assert(views_of(table@) =~~= Seq::<Seq<char>>::empty());
            assert(self@.skip(0) =~= self@);
        }
        while idx < n
            invariant
                idx <= n,
                n == self.list.len(),
                self.wf(),
                run_emit(Seq::empty(), self@) == out@ + run_emit(
                    views_of(table@),
                    self@.skip(idx as int),
                ),
                run_table(Seq::empty(), self@) == run_table(
                    views_of(table@),
                    self@.skip(idx as int),
                ),
            decreases n - idx,
        {
            let ghost rest = self@.skip(idx as int);
            let ghost t0 = views_of(table@);
            let a = &self.list[idx];
            proof {
                assert(self@[idx as int] == a@);
                assert(rest[0] == a@);
                assert(rest.drop_first() =~= self@.skip(idx as int + 1));
                assert(self@[idx as int].wf());
            }
            step(a, &mut out, &mut table);
            idx = idx + 1;
            proof {
                assert(run_emit(t0, rest) == step_emit(t0, a@) + run_emit(
                    step_table(t0, a@),
                    rest.drop_first(),
                ));
            }
        }
        proof {
            assert(self@.skip(n as int) =~= Seq::<ArgView>::empty());
            assert(out@ + Seq::<char>::empty() =~= out@);
        }
        (out, table)
    }

    /// The complete substitution table this argument list builds: every
    /// registered encoding, in first-registration order.
    pub fn s_list(&self) -> (r: Vec<String>)
        requires
            self.wf(),
        ensures
            views_of(r@) == run_table(Seq::empty(), self@),
    {
        let (_, table) = self.process();
        table
    }

    /// The concatenated argument tokens of this list, substitution-
    /// compressed.
    pub fn to_string(&self) -> (r: String)
        requires
            self.wf(),
        ensures
            r@ == run_emit(Seq::empty(), self@),
    {
        let (out, _) = self.process();
        out
    }
}

/// Emits one argument against the current table and registers what it adds.
fn step(a: &Arg, out: &mut String, table: &mut Vec<String>)
    requires
        a@.wf(),
    ensures
        final(out)@ == old(out)@ + step_emit(views_of(old(table)@), a@),
        views_of(final(table)@) == step_table(views_of(old(table)@), a@),
{
    let ghost t0 = views_of(table@);
    let name = a.base_name.as_str();
    let pod = is_pod(name);
    if pod && !(a.is_reference || a.is_pointer) {
        out.append(mangle_pod(name));
        proof {
            assert(out@ =~= old(out)@ + step_emit(t0, a@));
            assert(views_of(table@) =~= step_table(t0, a@));
        }
        return ;
    }
    let enc = a.mangled();
    match find_str(table, &enc) {
        Some(i) => {
            append_s_token(out, i);
            proof {
                assert(views_of(table@) =~= step_table(t0, a@));
            }
        },
        None => {
            let has_out = a.is_reference || a.is_pointer;
            if has_out {
                let part = a.partial_str();
                match find_str(table, &part) {
                    Some(i) => {
                        let ghost mid = out@;
                        if a.is_reference {
                            out.append("R");
                        } else {
                            out.append("P");
                        }
                        proof {
                            reveal_strlit("R");
                            reveal_strlit("P");
                            assert("R"@ =~= seq!['R']);
                            assert("P"@ =~= seq!['P']);
                            assert(out@ =~= mid + seq![outer_char(a@)]);
                        }
                        append_s_token(out, i);
                        table.push(enc);
                        proof {
                            assert(out@ =~= old(out)@ + step_emit(t0, a@));
                            assert(views_of(table@) =~= step_table(t0, a@));
                        }
                        return ;
                    },
                    None => {},
                }
            }
            // No match at all: spell the encoding out and register.
            out.append(enc.as_str());
            proof {
                assert(out@ =~= old(out)@ + step_emit(t0, a@));
            }
            if pod {
                if a.is_const {
                    let part = a.partial_str();
                    table.push(part);
                    table.push(enc);
                } else {
                    table.push(enc);
                }
            } else {
                if !has_out {
                    table.push(enc);
                } else {
                    let base = a.base_str();
                    match find_str(table, &base) {
                        Some(_) => {
                            table.push(enc);
                        },
                        None => {
                            table.push(base);
                            table.push(enc);
                        },
                    }
                }
            }
            proof {
                assert(views_of(table@) =~= step_table(t0, a@));
            }
        },
    }
}

} // verus!
