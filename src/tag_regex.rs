//! A regular expression that matches exactly one of a list of tags.
use vstd::prelude::*;


verus! {

#[verifier::external_type_specification]
#[verifier::external_body]
pub struct ExRegex(regex::Regex);

#[verifier::external_type_specification]
#[verifier::external_body]
pub struct ExRegexError(regex::Error);

/// Whether `regex::Regex::new` accepts `pattern`: it parses, and compiles
/// within the crate's default size limits.
pub uninterp spec fn regex_compiles(pattern: Seq<char>) -> bool;

/// Relies on `regex::Regex::new`, which builds with the default options, so
/// that success depends on the pattern alone.
#[verifier::external_body]
fn compile(pattern: &str) -> (r: Result<regex::Regex, regex::Error>)
    ensures
        r is Ok == regex_compiles(pattern@),
{
    regex::Regex::new(pattern)
}

/// The tags, each followed by `|`.
pub open spec fn with_bars(tags: Seq<Seq<char>>) -> Seq<char>
    decreases tags.len(),
{
    if tags.len() == 0 {
        Seq::empty()
    } else {
        with_bars(tags.drop_last()) + tags.last() + seq!['|']
    }
}

/// `^(` and the tags each followed by `|`, less the last character, then
/// `)$`: `^(a|b)$` for the tags `a` and `b`, `^)$` for none.
pub open spec fn tag_list_pattern(tags: Seq<Seq<char>>) -> Seq<char> {
    (seq!['^', '('] + with_bars(tags)).drop_last() + seq![')', '$']
}

/// The pattern that `from_tag_list` compiles.
pub fn tag_pattern(tags: &[String]) -> (r: String)
    ensures
        r@ == tag_list_pattern(tags@.map_values(|t: String| t@)),
{
    let ghost views = tags@.map_values(|t: String| t@);
    proof {
        reveal_strlit("^");
        reveal_strlit("^(");
        reveal_strlit("|");
        reveal_strlit(")$");
    }
    if tags.len() == 0 {
        let mut r = String::from_str("^");
        r.append(")$");
        proof {
            assert(views =~= Seq::<Seq<char>>::empty());
            assert(r@ =~= tag_list_pattern(views));
        }
        return r;
    }
    let mut r = String::from_str("^(");
    r.append(tags[0].as_str());
    let mut i: usize = 1;
    proof {
        assert(views.subrange(0, 1).drop_last() =~= Seq::<Seq<char>>::empty());
        let first = views.subrange(0, 1);
        assert(first.drop_last() =~= Seq::<Seq<char>>::empty());
        assert(with_bars(first.drop_last()) == Seq::<char>::empty());
        assert(first.last() == tags@[0]@);
        assert(with_bars(first) =~= views[0] + seq!['|']);
        assert(seq!['^', '('] + with_bars(views.subrange(0, 1)) =~= r@ + seq!['|']);
    }
    while i < tags.len()
        invariant
            1 <= i <= tags.len(),
            views == tags@.map_values(|t: String| t@),
            r@ + seq!['|'] == seq!['^', '('] + with_bars(views.subrange(0, i as int)),
        decreases tags.len() - i,
    {
        let ghost before = r@;
        r.append("|");
        r.append(tags[i].as_str());
        proof {
            reveal_strlit("|");
            let next = views.subrange(0, i + 1);
            assert(next.drop_last() =~= views.subrange(0, i as int));
            assert(next.last() == tags@[i as int]@);
            assert(r@ + seq!['|'] =~= before + seq!['|'] + tags@[i as int]@ + seq!['|']);
        }
        i = i + 1;
    }
    let ghost body = r@;
    r.append(")$");
    proof {
        assert(views.subrange(0, tags.len() as int) =~= views);
        assert((body + seq!['|']).drop_last() =~= body);
        assert(r@ =~= tag_list_pattern(views));
    }
    r
}

/// A regular expression that matches a whole text equal to one of `tags`;
/// an error where the regex crate refuses the pattern.
pub fn from_tag_list(tags: &[String]) -> (r: Result<regex::Regex, regex::Error>)
    ensures
        r is Ok == regex_compiles(tag_list_pattern(tags@.map_values(|t: String| t@))),
{
    let pattern = tag_pattern(tags);
    compile(pattern.as_str())
}

} // verus!
