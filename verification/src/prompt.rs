//! The prompt that asks the completion service for one translation.
use vstd::prelude::*;
use vstd::string::StringExecFns;
use crate::overrides::{pair_views, Entry};

verus! {

/// One hint as a line of the prompt: the key, an en dash between two spaces,
/// the translation, and a line feed.
pub open spec fn hint_line(hint: Entry) -> Seq<char> {
    hint.0 + " \u{2013} "@ + hint.1 + "\n"@
}

/// The lines of the hints, one after the other.
pub open spec fn hint_block(hints: Seq<Entry>) -> Seq<char>
    decreases hints.len(),
{
    if hints.len() == 0 {
        Seq::empty()
    } else {
        hint_block(hints.drop_last()) + hint_line(hints.last())
    }
}

/// What stands before the request proper: the hints under their heading and
/// an empty line, or nothing where there is no hint.
pub open spec fn preamble(hints: Seq<Entry>) -> Seq<char> {
    if hint_block(hints).len() > 0 {
        "Considering the following translations:\n"@ + hint_block(hints) + "\n"@
    } else {
        Seq::empty()
    }
}

/// The prompt for `source`: the hints, if any, then the directive, the source
/// text as it is, and the cue for the answer.
pub open spec fn prompt_text(hints: Seq<Entry>, source: Seq<char>) -> Seq<char> {
    preamble(hints) + "Translate this into Romanian:\n"@ + source + "\n\nRomanian:\n"@
}

/// Writes the prompt for `source` with the given hints.
pub fn build_prompt(hints: &Vec<(String, String)>, source: &str) -> (prompt: String)
    ensures
        prompt@ == prompt_text(pair_views(hints@), source@),
{
    let mut block = String::new();
    let mut i: usize = 0;
    assert(pair_views(hints@).take(0) =~= Seq::<Entry>::empty());
    while i < hints.len()
        invariant
            i <= hints.len(),
            block@ == hint_block(pair_views(hints@).take(i as int)),
        decreases hints.len() - i,
    {
        proof {
            let upto = pair_views(hints@).take(i as int + 1);
            assert(upto.drop_last() =~= pair_views(hints@).take(i as int));
            assert(upto.last() == (hints[i as int].0@, hints[i as int].1@));
        }
        let ghost earlier = block@;
        block.append(hints[i].0.as_str());
        block.append(" \u{2013} ");
        block.append(hints[i].1.as_str());
        block.append("\n");
        assert(block@ =~= earlier + hint_line((hints[i as int].0@, hints[i as int].1@)));
        i = i + 1;
    }
    assert(pair_views(hints@).take(hints.len() as int) =~= pair_views(hints@));
    let mut prompt = String::new();
    if !block.as_str().is_empty() {
        prompt.append("Considering the following translations:\n");
        prompt.append(block.as_str());
        prompt.append("\n");
    }
    assert(prompt@ =~= preamble(pair_views(hints@)));
    prompt.append("Translate this into Romanian:\n");
    prompt.append(source);
    prompt.append("\n\nRomanian:\n");
    prompt
}

} // verus!
