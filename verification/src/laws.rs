//! The properties the library states of itself, each proved once and for
//! all inputs: determinism, the shape of a no-argument symbol, and the
//! invariants of the substitution table.

use vstd::prelude::*;
use crate::descriptor::{
    base_code, has_outer, partial_code, prefix_chars, spec_encode_arg, spec_is_pod,
    spec_pod_regs, spec_prefix, ArgView,
};
use crate::mangler::{
    args_ok, body_of, has_const_suffix, head_code, name_segments, parens_ok, parse_args,
    segments_ok, spec_mangle, MangleError,
};
use crate::text::find_char;
use crate::table::{
    find_entry, lemma_find_entry, run_table, step_regs, step_table,
};

verus! {

/// Law: mangling is deterministic. The mangled form is a function of the
/// signature text alone, so two signatures holding the same characters
/// mangle to the same result or fail with the same error, on this call or
/// any later one.
pub proof fn lemma_mangle_deterministic(s1: Seq<char>, s2: Seq<char>)
    requires
        s1 == s2,
    ensures
        spec_mangle(s1) == spec_mangle(s2),
{
}

/// Law: a signature with an empty argument body mangles to a symbol that
/// ends in `Ev`: the name-path terminator followed by the void code.
pub proof fn lemma_no_args_ends_in_ev(s: Seq<char>, i: int)
    requires
        find_char(body_of(s), '(') == Some(i),
        parens_ok(body_of(s)),
        segments_ok(name_segments(body_of(s).subrange(0, i))),
        body_of(s).subrange(i + 1, body_of(s).len() - 1).len() == 0,
    ensures
        spec_mangle(s) is Ok,
        spec_mangle(s)->Ok_0.len() >= 2,
        spec_mangle(s)->Ok_0.subrange(
            spec_mangle(s)->Ok_0.len() - 2,
            spec_mangle(s)->Ok_0.len() as int,
        ) == seq!['E', 'v'],
{
    let segs = name_segments(body_of(s).subrange(0, i));
    let head = head_code(has_const_suffix(s), segs);
    let out = head + seq!['v'];
    assert(spec_mangle(s) == Ok::<Seq<char>, MangleError>(out));
    assert(head.len() >= 4);
    assert(head[head.len() - 1] == 'E');
    assert(out[out.len() - 2] == 'E');
    assert(out[out.len() - 1] == 'v');
    assert(out.subrange(out.len() - 2, out.len() as int) =~= seq!['E', 'v']);
}

/// Law: the errors are exact. A signature fails with `MalformedSignature`
/// precisely when no `(` occurs, when the parentheses are not a single pair
/// closing the text, or when a name segment is empty; it fails with
/// `UnrecognizedPrefixCombination` precisely when it is otherwise well
/// formed, has a non-empty argument body, and some argument is decorated as
/// both a reference and a pointer; it mangles otherwise.
pub proof fn lemma_error_conditions(s: Seq<char>)
    ensures
        spec_mangle(s) == Err::<Seq<char>, MangleError>(MangleError::MalformedSignature)
            <==> match find_char(body_of(s), '(') {
                None => true,
                Some(i) => !parens_ok(body_of(s)) || !segments_ok(
                    name_segments(body_of(s).subrange(0, i)),
                ),
            },
        spec_mangle(s) == Err::<Seq<char>, MangleError>(MangleError::UnrecognizedPrefixCombination)
            <==> match find_char(body_of(s), '(') {
                None => false,
                Some(i) => parens_ok(body_of(s)) && segments_ok(
                    name_segments(body_of(s).subrange(0, i)),
                ) && body_of(s).subrange(i + 1, body_of(s).len() - 1).len() > 0 && !args_ok(
                    parse_args(body_of(s).subrange(i + 1, body_of(s).len() - 1)),
                ),
            },
        (spec_mangle(s) is Ok) <==> match find_char(body_of(s), '(') {
            None => false,
            Some(i) => parens_ok(body_of(s)) && segments_ok(
                name_segments(body_of(s).subrange(0, i)),
            ) && (body_of(s).subrange(i + 1, body_of(s).len() - 1).len() == 0 || args_ok(
                parse_args(body_of(s).subrange(i + 1, body_of(s).len() - 1)),
            )),
        },
{
}

/// Law: one argument registers at most two new entries, so the table grows
/// by at most two per argument.
pub proof fn lemma_table_growth(t: Seq<Seq<char>>, args: Seq<ArgView>)
    ensures
        run_table(t, args).len() <= t.len() + 2 * args.len(),
    decreases args.len(),
{
    if args.len() == 0 {
    } else {
        assert(step_regs(t, args[0]).len() <= 2);
        lemma_table_growth(step_table(t, args[0]), args.drop_first());
    }
}

/// Law: a substitution table that starts empty holds at most `2 N` entries
/// after `N` arguments.
pub proof fn lemma_table_bounded(args: Seq<ArgView>)
    ensures
        run_table(Seq::empty(), args).len() <= 2 * args.len(),
{
    lemma_table_growth(Seq::empty(), args);
}

/// Law: the table only ever grows by appending: every entry keeps the index
/// it was first registered under, so back-reference indices increase
/// strictly in first-seen order.
pub proof fn lemma_table_append_only(t: Seq<Seq<char>>, args: Seq<ArgView>)
    ensures
        t.is_prefix_of(run_table(t, args)),
    decreases args.len(),
{
    if args.len() == 0 {
        assert(t.subrange(0, t.len() as int) =~= t);
    } else {
        let t1 = step_table(t, args[0]);
        let tf = run_table(t1, args.drop_first());
        lemma_table_append_only(t1, args.drop_first());
        assert(t1.subrange(0, t.len() as int) =~= t);
        assert forall|x: int| 0 <= x < t.len() implies t[x] == tf[x] by {
            assert(t1[x] == tf.subrange(0, t1.len() as int)[x]);
        }
        assert(t.subrange(0, t.len() as int) =~= t);
        assert(t =~= tf.subrange(0, t.len() as int));
    }
}

/// Law: the pass over an argument list splits at any point `k`: the final
/// table is the table built by the first `k` arguments, extended by the
/// remaining ones.
pub proof fn lemma_run_table_split(t: Seq<Seq<char>>, args: Seq<ArgView>, k: int)
    requires
        0 <= k <= args.len(),
    ensures
        run_table(t, args) == run_table(run_table(t, args.take(k)), args.skip(k)),
    decreases k,
{
    if k == 0 {
        assert(args.take(0) =~= Seq::<ArgView>::empty());
        assert(args.skip(0) =~= args);
    } else {
        let t1 = step_table(t, args[0]);
        let rest = args.drop_first();
        assert(args.take(k)[0] == args[0]);
        assert(args.take(k).drop_first() =~= rest.take(k - 1));
        assert(args.skip(k) =~= rest.skip(k - 1));
        lemma_run_table_split(t1, rest, k - 1);
        assert(run_table(t, args.take(k)) == run_table(t1, rest.take(k - 1)));
    }
}

/// Law: a back-reference is only resolved against entries that already
/// stand in the table: whenever an exact or a partial match is found, the
/// matched index lies inside the table handed to that argument, and the
/// entry there is the encoding matched.
pub proof fn lemma_backref_registered(t: Seq<Seq<char>>, a: ArgView)
    ensures
        find_entry(t, spec_encode_arg(a)) matches Some(i) ==> 0 <= i < t.len() && t[i]
            == spec_encode_arg(a),
        find_entry(t, partial_code(a)) matches Some(i) ==> 0 <= i < t.len() && t[i]
            == partial_code(a),
{
    lemma_find_entry(t, spec_encode_arg(a));
    lemma_find_entry(t, partial_code(a));
}

/// Law: a fundamental argument's own registration list is exactly what the
/// pass registers for it when neither an exact nor a partial back-reference
/// applies: nothing for a plain by-value fundamental, the compound alone
/// without const, the inner const form then the compound with it.
pub proof fn lemma_pod_regs_match_step(t: Seq<Seq<char>>, a: ArgView)
    requires
        spec_is_pod(a.base_name),
        find_entry(t, spec_encode_arg(a)) is None,
        !(has_outer(a) && find_entry(t, partial_code(a)) is Some),
    ensures
        step_regs(t, a) == spec_pod_regs(a),
{
    assert(step_regs(t, a) =~~= spec_pod_regs(a));
}

/// Whether the entries of a table are pairwise distinct.
pub open spec fn distinct_entries(t: Seq<Seq<char>>) -> bool {
    forall|i: int, j: int| 0 <= i < j < t.len() ==> t[i] != t[j]
}

proof fn lemma_step_distinct(t: Seq<Seq<char>>, a: ArgView)
    requires
        distinct_entries(t),
    ensures
        distinct_entries(step_table(t, a)),
{
    lemma_find_entry(t, spec_encode_arg(a));
    lemma_find_entry(t, partial_code(a));
    lemma_find_entry(t, base_code(a));
    let regs = step_regs(t, a);
    assert(prefix_chars(spec_prefix(a)).len() <= 2);
    assert(has_outer(a) ==> prefix_chars(spec_prefix(a)).len() >= 1);
    assert((has_outer(a) && a.is_const) ==> prefix_chars(spec_prefix(a)).len() == 2);
    let u = step_table(t, a);
    assert forall|i: int, j: int| 0 <= i < j < u.len() implies u[i] != u[j] by {
        if j >= t.len() {
            assert(u[j] == regs[j - t.len()]);
            if i >= t.len() {
                assert(u[i] == regs[i - t.len()]);
                assert(regs.len() == 2 && i - t.len() == 0 && j - t.len() == 1);
                assert(regs[0].len() != regs[1].len());
            } else {
                assert(u[i] == t[i]);
                assert(t[i] != regs[j - t.len()]);
            }
        }
    }
}

/// Law: one pass never registers the same encoding twice: starting from a
/// table of pairwise-distinct entries, the table stays pairwise distinct,
/// so every registered encoding owns exactly one back-reference index.
pub proof fn lemma_entries_distinct(t: Seq<Seq<char>>, args: Seq<ArgView>)
    requires
        distinct_entries(t),
    ensures
        distinct_entries(run_table(t, args)),
    decreases args.len(),
{
    if args.len() == 0 {
    } else {
        lemma_step_distinct(t, args[0]);
        lemma_entries_distinct(step_table(t, args[0]), args.drop_first());
    }
}

/// Law: no back-reference is emitted before its referent is registered. The
/// token of argument `k` resolves only against the table built by the
/// arguments before `k`, and that table stands unchanged, entry by entry, at
/// the front of every later table of the same pass.
pub proof fn lemma_backref_precedes(t0: Seq<Seq<char>>, args: Seq<ArgView>, k: int)
    requires
        0 <= k < args.len(),
    ensures
        find_entry(run_table(t0, args.take(k)), spec_encode_arg(args[k])) matches Some(i) ==> 0
            <= i < run_table(t0, args.take(k)).len(),
        find_entry(run_table(t0, args.take(k)), partial_code(args[k])) matches Some(i) ==> 0 <= i
            < run_table(t0, args.take(k)).len(),
        run_table(t0, args.take(k)).is_prefix_of(run_table(t0, args)),
{
    let tk = run_table(t0, args.take(k));
    lemma_backref_registered(tk, args[k]);
    lemma_run_table_split(t0, args, k);
    lemma_table_append_only(tk, args.skip(k));
}

} // verus!
