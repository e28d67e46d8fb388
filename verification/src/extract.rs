//! The compute side of the extraction tool: given the message keys found in
//! a program and the compiled table, the entries that still need a
//! translation for a locale, each defaulting to its last path segment.
use vstd::prelude::*;
use crate::table::{ResourceTable, pairs_view, ahas_key, lemma_akey_index};
use crate::flatten::{split, split_path};

verus! {

/// The untranslated entries for `ms` in order: a key already translated for
/// the locale, or already collected, contributes nothing; any other key
/// contributes one entry whose default text is its last path segment.
pub open spec fn untranslated_spec(
    ms: Seq<Seq<char>>,
    t: ResourceTable,
    loc: Seq<char>,
    seen: Seq<(Seq<char>, Seq<char>)>,
) -> Seq<(Seq<char>, Seq<char>)>
    decreases ms.len(),
{
    if ms.len() == 0 {
        Seq::empty()
    } else {
        let k = ms.first();
        if t.spec_get(k, loc) is Some || ahas_key(seen, k) {
            untranslated_spec(ms.drop_first(), t, loc, seen)
        } else {
            seq![(k, split(k).last())] + untranslated_spec(
                ms.drop_first(),
                t,
                loc,
                seen.push((k, split(k).last())),
            )
        }
    }
}

/// Collects the untranslated entries for the given message keys: one entry
/// per key that the table does not serve for `locale`, first occurrence
/// wins, defaulting to the key's last dot segment.
#[verifier::loop_isolation(false)]
pub fn untranslated(messages: &Vec<String>, existing: &ResourceTable, locale: &str) -> (r: Vec<
    (String, String),
>)
    ensures
        pairs_view(r@) == untranslated_spec(
            messages@.map_values(|m: String| m@),
            *existing,
            locale@,
            Seq::empty(),
        ),
{
    let ghost mv = messages@.map_values(|m: String| m@);
    let mut acc: Vec<(String, String)> = Vec::new();
    proof {
        assert(pairs_view(acc@) =~= Seq::<(Seq<char>, Seq<char>)>::empty());
        assert(mv.skip(0) =~= mv);
    }
    let mut i: usize = 0;
    while i < messages.len()
        invariant
            i <= messages@.len(),
            untranslated_spec(mv, *existing, locale@, Seq::empty()) == pairs_view(acc@)
                + untranslated_spec(mv.skip(i as int), *existing, locale@, pairs_view(acc@)),
        decreases messages@.len() - i,
    {
        let ghost pv0 = pairs_view(acc@);
        proof {
            assert(mv.skip(i as int).first() == mv[i as int]);
            assert(mv.skip(i as int).drop_first() =~= mv.skip(i as int + 1));
            lemma_akey_index(pv0, mv[i as int]);
        }
        let translated = match existing.get(messages[i].as_str(), locale) {
            Some(_) => true,
            None => false,
        };
        let j = crate::table::find_pair(&acc, &messages[i]);
        if translated || j < acc.len() {
            i = i + 1;
            continue ;
        }
        let segs = split_path(messages[i].as_str());
        let last = segs[segs.len() - 1].clone();
        acc.push((messages[i].clone(), last));
        proof {
            assert(acc@.last().1@ == split(mv[i as int]).last());
            assert(pairs_view(acc@) =~= pv0.push((mv[i as int], split(mv[i as int]).last())));
            let rest = untranslated_spec(
                mv.skip(i as int + 1),
                *existing,
                locale@,
                pairs_view(acc@),
            );
            assert(pv0 + (seq![(mv[i as int], split(mv[i as int]).last())] + rest) =~= pairs_view(
                acc@,
            ) + rest);
        }
        i = i + 1;
    }
    proof {
        assert(mv.skip(messages@.len() as int) =~= Seq::<Seq<char>>::empty());
        assert(pairs_view(acc@) + Seq::<(Seq<char>, Seq<char>)>::empty() =~= pairs_view(acc@));
    }
    acc
}

} // verus!
