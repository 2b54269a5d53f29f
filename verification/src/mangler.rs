//! The mangler: parses a qualified signature string and assembles the final
//! symbol from the name path, the const-method marker and the
//! substitution-compressed argument tokens.

use vstd::prelude::*;
use vstd::string::*;
use crate::descriptor::{spec_parse_arg, Arg, ArgView};
use crate::table::{run_emit, Args};
use crate::text::{
    count_char, count_char_str, dec_rec, find_char, find_char_str, lemma_find_char, split_commas,
    split_commas_str, split_path, split_path_str, trim, trimmed, usize_dec, views_of,
};

verus! {

/// Why a signature fails to mangle. Every failure is terminal for the one
/// call that met it and surfaces as a value; no input aborts the process.
#[derive(Clone, Copy, PartialEq, Eq, Structural, Debug)]
pub enum MangleError {
    /// No parenthesis pair bounds the argument list, or a name segment
    /// between `::` separators is empty.
    MalformedSignature,
    /// An argument is decorated as both a reference and a pointer, a
    /// combination that composes no prefix in this dialect.
    UnrecognizedPrefixCombination,
}

/// The characters of the trailing const-method marker ` const`.
pub open spec fn const_suffix() -> Seq<char> {
    seq![' ', 'c', 'o', 'n', 's', 't']
}

/// Whether the signature ends with the const-method marker.
pub open spec fn has_const_suffix(s: Seq<char>) -> bool {
    s.len() >= 6 && s.subrange(s.len() - 6, s.len() as int) == const_suffix()
}

/// The signature without its const-method marker.
pub open spec fn body_of(s: Seq<char>) -> Seq<char> {
    if has_const_suffix(s) {
        s.subrange(0, s.len() - 6)
    } else {
        s
    }
}

/// Whether `b` holds exactly one `(` and exactly one `)`, the latter as its
/// last character: a single parenthesis pair bounding the argument list.
pub open spec fn parens_ok(b: Seq<char>) -> bool {
    &&& count_char(b, '(') == 1
    &&& count_char(b, ')') == 1
    &&& b.len() > 0
    &&& b[b.len() - 1] == ')'
}

/// The trimmed `::`-separated segments of a name path.
pub open spec fn name_segments(p: Seq<char>) -> Seq<Seq<char>> {
    split_path(p).map_values(|seg: Seq<char>| trimmed(seg))
}

/// Whether every name segment is non-empty.
pub open spec fn segments_ok(segs: Seq<Seq<char>>) -> bool {
    forall|i: int| 0 <= i < segs.len() ==> segs[i].len() > 0
}

/// The encoding of the name path: each segment's decimal length then the
/// segment itself, concatenated in order.
pub open spec fn encode_segments(segs: Seq<Seq<char>>) -> Seq<char>
    decreases segs.len(),
{
    if segs.len() == 0 {
        Seq::empty()
    } else {
        dec_rec(segs[0].len() as int) + segs[0] + encode_segments(segs.drop_first())
    }
}

/// The head of every mangled name: `_ZN`, then `K` for a const method, then
/// the encoded name path, terminated by `E`.
pub open spec fn head_code(cst: bool, segs: Seq<Seq<char>>) -> Seq<char> {
    seq!['_', 'Z', 'N'] + (if cst {
        seq!['K']
    } else {
        Seq::<char>::empty()
    }) + encode_segments(segs) + seq!['E']
}

/// The argument descriptors parsed from the comma-separated argument body.
pub open spec fn parse_args(body: Seq<char>) -> Seq<ArgView> {
    split_commas(body).map_values(|p: Seq<char>| spec_parse_arg(trimmed(p)))
}

/// The argument descriptors parsed from a sequence of raw argument strings.
pub open spec fn parsed_views(raw: Seq<&str>) -> Seq<ArgView> {
    raw.map_values(|p: &str| spec_parse_arg(p@))
}

/// Whether every parsed argument descriptor is well formed.
pub open spec fn args_ok(args: Seq<ArgView>) -> bool {
    forall|i: int| 0 <= i < args.len() ==> args[i].wf()
}

/// The mangled form of a signature, or the error that rejects it: the head,
/// then `v` for an empty argument list or the substitution-compressed
/// argument tokens otherwise.
pub open spec fn spec_mangle(s: Seq<char>) -> Result<Seq<char>, MangleError> {
    let b = body_of(s);
    match find_char(b, '(') {
        None => Err(MangleError::MalformedSignature),
        Some(i) => if !parens_ok(b) {
            Err(MangleError::MalformedSignature)
        } else {
            let segs = name_segments(b.subrange(0, i));
            if !segments_ok(segs) {
                Err(MangleError::MalformedSignature)
            } else {
                let head = head_code(has_const_suffix(s), segs);
                let abody = b.subrange(i + 1, b.len() - 1);
                if abody.len() == 0 {
                    Ok(head + seq!['v'])
                } else {
                    let argvs = parse_args(abody);
                    if !args_ok(argvs) {
                        Err(MangleError::UnrecognizedPrefixCombination)
                    } else {
                        Ok(head + run_emit(Seq::empty(), argvs))
                    }
                }
            }
        },
    }
}

/// Whether the const-method marker closes `s`.
fn has_const_suffix_str(s: &str) -> (r: bool)
    ensures
        r == has_const_suffix(s@),
{
    let len = s.unicode_len();
    if len < 6 {
        return false;
    }
    let b = len - 6;
    let r = s.get_char(b) == ' ' && s.get_char(b + 1) == 'c' && s.get_char(b + 2) == 'o'
        && s.get_char(b + 3) == 'n' && s.get_char(b + 4) == 's' && s.get_char(b + 5) == 't';
    proof {
        let sub = s@.subrange(b as int, len as int);
        assert(sub[0] == s@[b as int]);
        assert(sub[1] == s@[b as int + 1]);
        assert(sub[2] == s@[b as int + 2]);
        assert(sub[3] == s@[b as int + 3]);
        assert(sub[4] == s@[b as int + 4]);
        assert(sub[5] == s@[b as int + 5]);
        if r {
            assert(sub =~= const_suffix());
        }
    }
    r
}

/// Mangles a list of already-trimmed raw argument strings into their
/// concatenated tokens, or rejects the list when some argument is decorated
/// as both a reference and a pointer.
pub fn mangle_args(raw: &Vec<&str>) -> (r: Result<String, MangleError>)
    ensures
        match r {
            Ok(out) => args_ok(parsed_views(raw@)) && out@ == run_emit(
                Seq::empty(),
                parsed_views(raw@),
            ),
            Err(e) => e == MangleError::UnrecognizedPrefixCombination && !args_ok(
                parsed_views(raw@),
            ),
        },
{
    let ghost pv = parsed_views(raw@);
    let mut args = Args::new();
    let n = raw.len();
    let mut k: usize = 0;
    while k < n
        invariant
            k <= n,
            n == raw.len(),
            pv == parsed_views(raw@),
            args@ == pv.take(k as int),
            forall|j: int| 0 <= j < k ==> pv[j].wf(),
        decreases n - k,
    {
        let a = Arg::parse(raw[k]);
        if a.is_reference && a.is_pointer {
            proof {
                assert(pv[k as int] == a@);
                assert(!pv[k as int].wf());
            }
            return Err(MangleError::UnrecognizedPrefixCombination);
        }
        args.push(&a);
        proof {
            assert(pv[k as int] == a@);
            assert(args@ =~= pv.take(k as int + 1));
        }
        k = k + 1;
    }
    proof {
        assert(args@ =~= pv);
        assert(args.wf());
    }
    Ok(args.to_string())
}

/// Mangles a qualified signature string into its Itanium-subset linker
/// symbol, or reports exactly why the signature is rejected. The result is a
/// pure function of the signature text.
#[verifier::loop_isolation(false)]
pub fn mangle(s: &str) -> (r: Result<String, MangleError>)
    ensures
        match r {
            Ok(out) => spec_mangle(s@) == Ok::<Seq<char>, MangleError>(out@),
            Err(e) => spec_mangle(s@) == Err::<Seq<char>, MangleError>(e),
        },
{
    let len = s.unicode_len();
    let cst = has_const_suffix_str(s);
    let body: &str = if cst {
        s.substring_char(0, len - 6)
    } else {
        s
    };
    proof {
        assert(body@ == body_of(s@));
    }
    let ghost b = body@;
    let iopt = find_char_str(body, '(');
    let i = match iopt {
        None => {
            return Err(MangleError::MalformedSignature);
        },
        Some(i) => i,
    };
    proof {
        lemma_find_char(b, '(');
    }
    let blen = body.unicode_len();
    let n_open = count_char_str(body, '(');
    let n_close = count_char_str(body, ')');
    if !(n_open == 1 && n_close == 1 && body.get_char(blen - 1) == ')') {
        return Err(MangleError::MalformedSignature);
    }
    // The sole `)` is the last character and the sole `(` stands before it.
    proof {
        assert(b[i as int] == '(');
        assert(b[blen - 1] == ')');
        assert(i < blen - 1);
    }
    let name_part = body.substring_char(0, i);
    let ghost segsv = name_segments(name_part@);
    let raw_segs = split_path_str(name_part);
    let mut segs: Vec<String> = Vec::new();
    let nseg = raw_segs.len();
    let mut k: usize = 0;
    proof {
        assert(segsv.len() == nseg) by {
            assert(views_of(raw_segs@).len() == nseg);
        }
    }
    while k < nseg
        invariant
            k <= nseg,
            nseg == raw_segs.len(),
            segsv == name_segments(name_part@),
            views_of(raw_segs@) == split_path(name_part@),
            segsv.len() == nseg,
            segs@.len() == k,
            forall|j: int| 0 <= j < k ==> views_of(segs@)[j] == segsv[j],
            forall|j: int| 0 <= j < k ==> segsv[j].len() > 0,
        decreases nseg - k,
    {
        let t = trim(raw_segs[k].as_str());
        proof {
            assert(views_of(raw_segs@)[k as int] == raw_segs@[k as int]@);
            assert(segsv[k as int] == trimmed(split_path(name_part@)[k as int]));
        }
        if t.as_str().unicode_len() == 0 {
            proof {
                assert(segsv[k as int].len() == 0);
                assert(!segments_ok(segsv));
            }
            return Err(MangleError::MalformedSignature);
        }
        segs.push(t);
        proof {
            assert(views_of(segs@)[k as int] == t@);
            assert(forall|j: int|
                0 <= j < k ==> views_of(segs@)[j] == #[trigger] views_of(segs@.drop_last())[j]);
        }
        k = k + 1;
    }
    proof {
        assert(segments_ok(segsv));
    }
    // Assemble the head.
    let mut res = String::from_str("_ZN");
    if cst {
        res.append("K");
    }
    proof {
        reveal_strlit("_ZN");
        reveal_strlit("K");
        assert("_ZN"@ =~= seq!['_', 'Z', 'N']);
        assert("K"@ =~= seq!['K']);
    }
    let ghost head0 = res@;
    let nseg2 = segs.len();
    let mut k2: usize = 0;
    proof {
        assert(segsv.skip(0) =~= segsv);
    }
    while k2 < nseg2
        invariant
            k2 <= nseg2,
            nseg2 == segs.len(),
            segsv.len() == nseg2,
            forall|j: int| 0 <= j < nseg2 ==> views_of(segs@)[j] == segsv[j],
            res@ + encode_segments(segsv.skip(k2 as int)) == head0 + encode_segments(segsv),
        decreases nseg2 - k2,
    {
        let ghost pre = res@;
        let seg = segs[k2].as_str();
        let dl = usize_dec(seg.unicode_len());
        res.append(dl.as_str());
        res.append(seg);
        proof {
            assert(seg@ == views_of(segs@)[k2 as int]);
            let tail = segsv.skip(k2 as int);
            assert(tail[0] == segsv[k2 as int]);
            assert(tail.drop_first() =~= segsv.skip(k2 as int + 1));
            assert(encode_segments(tail) == dec_rec(tail[0].len() as int) + tail[0]
                + encode_segments(tail.drop_first()));
            assert(res@ + encode_segments(segsv.skip(k2 as int + 1)) =~= pre + encode_segments(
                tail,
            ));
        }
        k2 = k2 + 1;
    }
    proof {
        assert(segsv.skip(nseg2 as int) =~= Seq::<Seq<char>>::empty());
        assert(res@ + Seq::<char>::empty() =~= res@);
        assert(res@ =~= head0 + encode_segments(segsv));
    }
    res.append("E");
    proof {
        reveal_strlit("E");
        assert("E"@ =~= seq!['E']);
        assert(res@ =~= head_code(cst, segsv));
    }
    // Assemble the argument tokens.
    let arg_body = body.substring_char(i + 1, blen - 1);
    let ghost ab = b.subrange(i as int + 1, b.len() - 1);
    proof {
        assert(arg_body@ == ab);
    }
    if arg_body.unicode_len() == 0 {
        res.append("v");
        proof {
            reveal_strlit("v");
            assert("v"@ =~= seq!['v']);
            assert(res@ =~= head_code(cst, segsv) + seq!['v']);
        }
        return Ok(res);
    }
    let raw_args = split_commas_str(arg_body);
    let mut trimmed_args: Vec<String> = Vec::new();
    let nargs = raw_args.len();
    let mut k3: usize = 0;
    proof {
        assert(parse_args(ab).len() == nargs) by {
            assert(views_of(raw_args@).len() == nargs);
        }
    }
    while k3 < nargs
        invariant
            k3 <= nargs,
            nargs == raw_args.len(),
            views_of(raw_args@) == split_commas(ab),
            trimmed_args@.len() == k3,
            forall|j: int|
                0 <= j < k3 ==> views_of(trimmed_args@)[j] == trimmed(split_commas(ab)[j]),
        decreases nargs - k3,
    {
        let t = trim(raw_args[k3].as_str());
        proof {
            assert(views_of(raw_args@)[k3 as int] == raw_args@[k3 as int]@);
        }
        let ghost pre_ta = trimmed_args@;
        trimmed_args.push(t);
        proof {
            assert forall|j: int| 0 <= j < k3 + 1 implies views_of(trimmed_args@)[j] == trimmed(
                split_commas(ab)[j],
            ) by {
                assert(views_of(trimmed_args@)[j] == trimmed_args@[j]@);
                if j < k3 {
                    assert(trimmed_args@[j] == pre_ta[j]);
                    assert(views_of(pre_ta)[j] == pre_ta[j]@);
                }
            }
        }
        k3 = k3 + 1;
    }
    let mut refs: Vec<&str> = Vec::new();
    let mut k4: usize = 0;
    while k4 < nargs
        invariant
            k4 <= nargs,
            nargs == trimmed_args.len(),
            forall|j: int|
                0 <= j < nargs ==> views_of(trimmed_args@)[j] == trimmed(split_commas(ab)[j]),
            refs@.len() == k4,
            forall|j: int| 0 <= j < k4 ==> refs@[j]@ == trimmed(split_commas(ab)[j]),
        decreases nargs - k4,
    {
        refs.push(trimmed_args[k4].as_str());
        proof {
            assert(views_of(trimmed_args@)[k4 as int] == trimmed_args@[k4 as int]@);
        }
        k4 = k4 + 1;
    }
    proof {
        assert(parsed_views(refs@) =~= parse_args(ab));
    }
    match mangle_args(&refs) {
        Ok(toks) => {
            res.append(toks.as_str());
            proof {
                assert(res@ =~= head_code(cst, segsv) + run_emit(Seq::empty(), parse_args(ab)));
            }
            Ok(res)
        },
        Err(e) => Err(e),
    }
}

} // verus!
