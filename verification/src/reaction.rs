//! Reaction keys: the identity of a reaction, its canonical text, and the
//! reading of key lists.

use crate::text::{
    decimal, joined, lemma_lex_total, lemma_lex_transitive, lemma_pieces_nonempty, lex_less,
    less, pieces, push_decimal, same, split, texts, trim, trimmed, Separator,
};
use serenity::model::channel::ReactionType;
use vstd::prelude::*;
use vstd::string::StringExecFns;

verus! {

/// The identity of a reaction: a Unicode emoji, or a guild's custom emoji.
#[derive(Debug)]
pub enum ReactionKey {
    /// A Unicode emoji, held as its code points.
    Unicode(String),
    /// A custom emoji.
    Custom {
        /// Whether the emoji is animated.
        animated: bool,
        /// The emoji's identifier.
        id: u64,
        /// The emoji's name, if known.
        name: Option<String>,
    },
}

/// A reaction key as a mathematical value.
pub enum KeyView {
    Unicode(Seq<char>),
    Custom { animated: bool, id: u64, name: Option<Seq<char>> },
}

impl KeyView {
    /// The canonical text of a key: the emoji itself for a Unicode key;
    /// `<:name:id>` for a custom one, `<a:name:id>` if it is animated, the name
    /// left empty where there is none.
    pub open spec fn canonical(self) -> Seq<char> {
        match self {
            KeyView::Unicode(emoji) => emoji,
            KeyView::Custom { animated, id, name } => {
                let open = if animated {
                    seq!['<', 'a', ':']
                } else {
                    seq!['<', ':']
                };
                let label = match name {
                    Some(n) => n,
                    None => Seq::<char>::empty(),
                };
                open + label + seq![':'] + decimal(id as nat) + seq!['>']
            },
        }
    }
}

impl View for ReactionKey {
    type V = KeyView;

    open spec fn view(&self) -> KeyView {
        match self {
            ReactionKey::Unicode(emoji) => KeyView::Unicode(emoji@),
            ReactionKey::Custom { animated, id, name } => KeyView::Custom {
                animated: *animated,
                id: *id,
                name: match name {
                    Some(n) => Some(n@),
                    None => None,
                },
            },
        }
    }
}

impl Clone for ReactionKey {
    fn clone(&self) -> (r: Self)
        ensures
            r == *self,
    {
        match self {
            ReactionKey::Unicode(emoji) => ReactionKey::Unicode(emoji.clone()),
            ReactionKey::Custom { animated, id, name } => ReactionKey::Custom {
                animated: *animated,
                id: *id,
                name: match name {
                    Some(n) => Some(n.clone()),
                    None => None,
                },
            },
        }
    }
}

impl ReactionKey {
    /// The canonical text of the key, by which keys are compared and stored.
    pub fn to_string(&self) -> (s: String)
        ensures
            s@ == self@.canonical(),
    {
        match self {
            ReactionKey::Unicode(emoji) => emoji.clone(),
            ReactionKey::Custom { animated, id, name } => {
                let mut s = String::new();
                proof {
                    reveal_strlit("<a:");
                    reveal_strlit("<:");
                }
                if *animated {
                    s.append("<a:");
                    assert(s@ =~= seq!['<', 'a', ':']);
                } else {
                    s.append("<:");
                    assert(s@ =~= seq!['<', ':']);
                }
                match name {
                    Some(n) => {
                        s.append(n.as_str());
                    },
                    None => {
                        assert(s@ + Seq::<char>::empty() =~= s@);
                    },
                }
                s.push(':');
                push_decimal(&mut s, *id);
                s.push('>');
                assert(s@ =~= self@.canonical());
                s
            },
        }
    }

    /// Whether two keys are the same reaction: their canonical texts are equal.
    pub fn same_as(&self, other: &ReactionKey) -> (r: bool)
        ensures
            r == (self@.canonical() == other@.canonical()),
    {
        let a: String = self.to_string();
        let b: String = other.to_string();
        same(a.as_str(), b.as_str())
    }
}

/// The views of a sequence of keys.
pub open spec fn keys(v: Seq<ReactionKey>) -> Seq<KeyView> {
    v.map_values(|k: ReactionKey| k@)
}

/// What a text that starts with `<` denotes as a custom emoji, as
/// `ReactionType::try_from` reads it; `None` where it rejects the text.
pub uninterp spec fn parsed_custom(s: Seq<char>) -> Option<KeyView>;

/// What a text denotes as a reaction key: nothing if it is empty, itself as a
/// Unicode emoji unless it starts with `<`, and a custom emoji otherwise.
pub open spec fn parsed_reaction(s: Seq<char>) -> Option<KeyView> {
    if s.len() == 0 {
        None
    } else if s[0] != '<' {
        Some(KeyView::Unicode(s))
    } else {
        parsed_custom(s)
    }
}

/// Reads one reaction key with serenity's `ReactionType::try_from(&str)`.
///
/// Trusted: an empty text is rejected; a text that does not start with `<` is
/// taken whole as a Unicode emoji; for any other text the outcome is a function of
/// the text alone, named `parsed_custom`.
#[verifier::external_body]
fn read_reaction(s: &str) -> (r: Option<ReactionKey>)
    ensures
        s@.len() == 0 ==> r is None,
        s@.len() > 0 && s@[0] != '<' ==> r is Some && r->0@ == KeyView::Unicode(s@),
        s@.len() > 0 && s@[0] == '<' ==> match r {
            Some(k) => parsed_custom(s@) == Some(k@),
            None => parsed_custom(s@) is None,
        },
{
    match ReactionType::try_from(s) {
        Ok(ReactionType::Unicode(emoji)) => Some(ReactionKey::Unicode(emoji)),
        Ok(ReactionType::Custom { animated, id, name }) => Some(
            ReactionKey::Custom { animated, id: id.get(), name },
        ),
        _ => None,
    }
}

/// Reads one reaction key from its text.
pub fn parse_reaction(s: &str) -> (r: Option<ReactionKey>)
    ensures
        match r {
            Some(k) => parsed_reaction(s@) == Some(k@),
            None => parsed_reaction(s@) is None,
        },
{
    read_reaction(s)
}

/// The keys that the texts of `ps` denote, in order, texts that denote none left
/// out.
pub open spec fn parsed_all(ps: Seq<Seq<char>>) -> Seq<KeyView>
    decreases ps.len(),
{
    if ps.len() == 0 {
        Seq::<KeyView>::empty()
    } else {
        let head = parsed_all(ps.drop_last());
        match parsed_reaction(ps.last()) {
            Some(k) => head.push(k),
            None => head,
        }
    }
}

/// Reads every text of `ps` that denotes a key and appends the keys to `out`.
fn parse_all_into(out: &mut Vec<ReactionKey>, ps: &Vec<String>)
    ensures
        keys(final(out)@) == keys(old(out)@) + parsed_all(texts(ps@)),
{
    let mut i: usize = 0;
    assert(texts(ps@).take(0) =~= Seq::<Seq<char>>::empty());
    assert(keys(out@) + Seq::<KeyView>::empty() =~= keys(out@));
    while i < ps.len()
        invariant
            i <= ps.len(),
            keys(out@) == keys(old(out)@) + parsed_all(texts(ps@).take(i as int)),
        decreases ps.len() - i,
    {
        let ghost before = texts(ps@).take(i as int);
        let ghost after = texts(ps@).take(i + 1);
        let ghost had = keys(out@);
        assert(after.drop_last() =~= before);
        assert(after.last() == ps@[i as int]@);
        match parse_reaction(ps[i].as_str()) {
            Some(k) => {
                out.push(k);
                assert(keys(out@) =~= had.push(k@));
                assert(had.push(k@) =~= keys(old(out)@) + parsed_all(before).push(k@));
            },
            None => {},
        }
        i = i + 1;
    }
    assert(texts(ps@).take(i as int) =~= texts(ps@));
}

/// The keys listed in a comma-separated text, in order.
pub open spec fn keys_of_csv(s: Seq<char>) -> Seq<KeyView> {
    parsed_all(pieces(s, Separator::Char(',')))
}

/// The canonical texts of a sequence of keys.
pub open spec fn canonicals(ks: Seq<KeyView>) -> Seq<Seq<char>> {
    ks.map_values(|k: KeyView| k.canonical())
}

/// Writes the canonical texts of keys one after another with `sep` between
/// neighbours.
pub fn join_keys(values: &Vec<ReactionKey>, sep: &str) -> (s: String)
    ensures
        s@ == joined(canonicals(keys(values@)), sep@),
{
    let mut forms: Vec<String> = Vec::new();
    let mut i: usize = 0;
    while i < values.len()
        invariant
            i <= values.len(),
            texts(forms@) == canonicals(keys(values@)).take(i as int),
        decreases values.len() - i,
    {
        let form: String = values[i].to_string();
        let ghost had = texts(forms@);
        forms.push(form);
        assert(texts(forms@) =~= had.push(form@));
        assert(canonicals(keys(values@)).take(i + 1) =~= canonicals(keys(values@)).take(
            i as int,
        ).push(values@[i as int]@.canonical()));
        i = i + 1;
    }
    assert(canonicals(keys(values@)).take(i as int) =~= canonicals(keys(values@)));
    crate::text::join(&forms, sep)
}

/// Writes keys as a comma-separated text of their canonical texts.
pub fn to_csv(values: Vec<ReactionKey>) -> (s: String)
    ensures
        s@ == joined(canonicals(keys(values@)), seq![',']),
{
    proof {
        reveal_strlit(",");
    }
    assert(","@ =~= seq![',']);
    join_keys(&values, ",")
}

/// Reads the keys listed in a comma-separated text; entries that denote no key
/// are passed over.
pub fn from_csv(values: String) -> (out: Vec<ReactionKey>)
    ensures
        keys(out@) == keys_of_csv(values@),
{
    let parts: Vec<String> = split(values.as_str(), Separator::Char(','));
    let mut out: Vec<ReactionKey> = Vec::new();
    parse_all_into(&mut out, &parts);
    assert(Seq::<KeyView>::empty() + keys_of_csv(values@) =~= keys_of_csv(values@));
    assert(keys(Seq::<ReactionKey>::empty()) =~= Seq::<KeyView>::empty());
    out
}

/// Whether some key of `ks` has the canonical text `form`.
pub open spec fn has_form(ks: Seq<KeyView>, form: Seq<char>) -> bool {
    exists|i: int| 0 <= i < ks.len() && #[trigger] ks[i].canonical() == form
}

/// Whether `key` is among `among`, keys being compared by canonical text.
pub fn contains_key(among: &Vec<ReactionKey>, key: &ReactionKey) -> (r: bool)
    ensures
        r == has_form(keys(among@), key@.canonical()),
{
    let form: String = key.to_string();
    let mut i: usize = 0;
    while i < among.len()
        invariant
            i <= among.len(),
            form@ == key@.canonical(),
            forall|j: int| 0 <= j < i ==> (#[trigger] keys(among@)[j]).canonical() != form@,
        decreases among.len() - i,
    {
        let other: String = among[i].to_string();
        if same(other.as_str(), form.as_str()) {
            assert(keys(among@)[i as int].canonical() == form@);
            return true;
        }
        i = i + 1;
    }
    false
}


/// The custom-emoji candidates of a free text: what stands before each `>`,
/// without surrounding white space and with the `>` put back.
pub open spec fn bracketed(s: Seq<char>) -> Seq<Seq<char>> {
    pieces(s, Separator::Char('>')).drop_last().map_values(|r: Seq<char>| trimmed(r).push('>'))
}

/// The keys that a free text names, in the order they are looked for: first the
/// words between white space, then the custom-emoji candidates.
pub open spec fn candidates(s: Seq<char>) -> Seq<KeyView> {
    parsed_all(pieces(s, Separator::Whitespace)) + parsed_all(bracketed(s))
}

/// How many leading keys of `sorted` have a canonical text before `form`.
pub open spec fn rank(sorted: Seq<KeyView>, form: Seq<char>) -> int
    decreases sorted.len(),
{
    if sorted.len() == 0 || !lex_less(sorted[0].canonical(), form) {
        0
    } else {
        1 + rank(sorted.skip(1), form)
    }
}

/// `sorted` with `k` filed at its rank, unless a key of the same canonical text
/// already stands there.
pub open spec fn filed(sorted: Seq<KeyView>, k: KeyView) -> Seq<KeyView> {
    let p = rank(sorted, k.canonical());
    if p < sorted.len() && sorted[p].canonical() == k.canonical() {
        sorted
    } else {
        sorted.insert(p, k)
    }
}

/// The catalog of a sequence of keys: each canonical text once, represented by
/// the first key that has it, in ascending order of canonical text.
pub open spec fn catalog(ks: Seq<KeyView>) -> Seq<KeyView>
    decreases ks.len(),
{
    if ks.len() == 0 {
        Seq::<KeyView>::empty()
    } else {
        filed(catalog(ks.drop_last()), ks.last())
    }
}

/// Whether canonical texts strictly ascend along `ks`.
pub open spec fn ascending(ks: Seq<KeyView>) -> bool {
    forall|i: int, j: int|
        0 <= i < j < ks.len() ==> lex_less(
            (#[trigger] ks[i]).canonical(),
            (#[trigger] ks[j]).canonical(),
        )
}

/// The rank is the one position with only smaller texts before it and none
/// smaller at it.
proof fn lemma_rank_is(sorted: Seq<KeyView>, form: Seq<char>, p: int)
    requires
        0 <= p <= sorted.len(),
        forall|j: int| 0 <= j < p ==> lex_less((#[trigger] sorted[j]).canonical(), form),
        p < sorted.len() ==> !lex_less(sorted[p].canonical(), form),
    ensures
        rank(sorted, form) == p,
    decreases p,
{
    if p > 0 {
        let rest = sorted.skip(1);
        assert(lex_less(sorted[0].canonical(), form));
        assert forall|j: int| 0 <= j < p - 1 implies lex_less(
            (#[trigger] rest[j]).canonical(),
            form,
        ) by {
            assert(rest[j] == sorted[j + 1]);
        }
        lemma_rank_is(rest, form, p - 1);
    }
}

/// What the rank says of the keys around it.
proof fn lemma_rank_bounds(sorted: Seq<KeyView>, form: Seq<char>)
    ensures
        0 <= rank(sorted, form) <= sorted.len(),
        forall|j: int|
            0 <= j < rank(sorted, form) ==> lex_less((#[trigger] sorted[j]).canonical(), form),
        rank(sorted, form) < sorted.len() ==> !lex_less(
            sorted[rank(sorted, form)].canonical(),
            form,
        ),
    decreases sorted.len(),
{
    if sorted.len() > 0 && lex_less(sorted[0].canonical(), form) {
        let rest = sorted.skip(1);
        lemma_rank_bounds(rest, form);
        assert forall|j: int| 0 <= j < rank(sorted, form) implies lex_less(
            (#[trigger] sorted[j]).canonical(),
            form,
        ) by {
            if j > 0 {
                assert(sorted[j] == rest[j - 1]);
            }
        }
        if rank(sorted, form) < sorted.len() {
            assert(sorted[rank(sorted, form)] == rest[rank(rest, form)]);
        }
    }
}

/// Filing a key keeps an ascending sequence ascending.
pub proof fn lemma_filed_ascending(sorted: Seq<KeyView>, k: KeyView)
    requires
        ascending(sorted),
    ensures
        ascending(filed(sorted, k)),
{
    let form = k.canonical();
    let p = rank(sorted, form);
    lemma_rank_bounds(sorted, form);
    let next = filed(sorted, k);
    if !(p < sorted.len() && sorted[p].canonical() == form) {
        assert forall|i: int, j: int| 0 <= i < j < next.len() implies lex_less(
            (#[trigger] next[i]).canonical(),
            (#[trigger] next[j]).canonical(),
        ) by {
            if j < p {
                assert(next[i] == sorted[i] && next[j] == sorted[j]);
            } else if j == p {
                assert(next[i] == sorted[i]);
            } else if i == p {
                // next[j] stood at j - 1 >= p: it is not before `form`, and not equal
                let at = sorted[p].canonical();
                let later = sorted[j - 1].canonical();
                assert(next[j] == sorted[j - 1]);
                lemma_lex_total(at, form);
                assert(lex_less(form, at));
                if j - 1 > p {
                    assert(lex_less(sorted[p].canonical(), sorted[j - 1].canonical()));
                    lemma_lex_transitive(form, at, later);
                }
            } else if i < p {
                assert(next[i] == sorted[i] && next[j] == sorted[j - 1]);
            } else {
                assert(next[i] == sorted[i - 1] && next[j] == sorted[j - 1]);
            }
        }
    }
}

/// A catalog holds each canonical text at most once, in ascending order.
pub proof fn lemma_catalog_ascending(ks: Seq<KeyView>)
    ensures
        ascending(catalog(ks)),
    decreases ks.len(),
{
    if ks.len() > 0 {
        lemma_catalog_ascending(ks.drop_last());
        lemma_filed_ascending(catalog(ks.drop_last()), ks.last());
    }
}

/// Filing a key adds its canonical text and loses none.
pub proof fn lemma_filed_forms(sorted: Seq<KeyView>, k: KeyView, form: Seq<char>)
    ensures
        has_form(filed(sorted, k), form) <==> (has_form(sorted, form) || form == k.canonical()),
{
    let p = rank(sorted, k.canonical());
    lemma_rank_bounds(sorted, k.canonical());
    let next = filed(sorted, k);
    if p < sorted.len() && sorted[p].canonical() == k.canonical() {
        if form == k.canonical() {
            assert(sorted[p].canonical() == form);
        }
    } else {
        if has_form(sorted, form) {
            let i = choose|i: int| 0 <= i < sorted.len() && #[trigger] sorted[i].canonical() == form;
            if i < p {
                assert(next[i].canonical() == form);
            } else {
                assert(next[i + 1] == sorted[i]);
                assert(next[i + 1].canonical() == form);
            }
        }
        if form == k.canonical() {
            assert(next[p].canonical() == form);
        }
        if has_form(next, form) {
            let i = choose|i: int| 0 <= i < next.len() && #[trigger] next[i].canonical() == form;
            if i < p {
                assert(sorted[i].canonical() == form);
            } else if i > p {
                assert(next[i] == sorted[i - 1]);
                assert(sorted[i - 1].canonical() == form);
            }
        }
    }
}

/// A catalog holds exactly the canonical texts of the keys it was made from.
pub proof fn lemma_catalog_forms(ks: Seq<KeyView>, form: Seq<char>)
    ensures
        has_form(catalog(ks), form) <==> has_form(ks, form),
    decreases ks.len(),
{
    if ks.len() > 0 {
        let head = ks.drop_last();
        lemma_catalog_forms(head, form);
        lemma_filed_forms(catalog(head), ks.last(), form);
        if has_form(head, form) {
            let i = choose|i: int| 0 <= i < head.len() && #[trigger] head[i].canonical() == form;
            assert(ks[i].canonical() == form);
        }
        if form == ks.last().canonical() {
            assert(ks[ks.len() - 1].canonical() == form);
        }
        if has_form(ks, form) {
            let i = choose|i: int| 0 <= i < ks.len() && #[trigger] ks[i].canonical() == form;
            if i < head.len() {
                assert(head[i].canonical() == form);
            }
        }
    }
}

/// Files `k` into the ascending `sorted`.
fn file_key(sorted: &mut Vec<ReactionKey>, k: ReactionKey)
    ensures
        keys(final(sorted)@) == filed(keys(old(sorted)@), k@),
{
    let form: String = k.to_string();
    let ghost had = keys(sorted@);
    let mut p: usize = 0;
    while p < sorted.len()
        invariant
            p <= sorted.len(),
            form@ == k@.canonical(),
            had == keys(sorted@),
            sorted@ == old(sorted)@,
            forall|j: int| 0 <= j < p ==> lex_less((#[trigger] had[j]).canonical(), form@),
        decreases sorted.len() - p,
    {
        let at: String = sorted[p].to_string();
        assert(at@ == had[p as int].canonical());
        if !less(at.as_str(), form.as_str()) {
            proof {
                lemma_rank_is(had, form@, p as int);
            }
            if same(at.as_str(), form.as_str()) {
                return ;
            }
            sorted.insert(p, k);
            assert(keys(sorted@) =~= had.insert(p as int, k@));
            return ;
        }
        p = p + 1;
    }
    proof {
        lemma_rank_is(had, form@, p as int);
    }
    sorted.insert(p, k);
    assert(keys(sorted@) =~= had.insert(p as int, k@));
}

/// Reads the reaction keys that a free text names: Unicode emoji as words between
/// white space, custom emoji as `<:name:id>` wherever they stand. The keys come
/// back as a catalog: each once, in ascending order of canonical text.
pub fn parse_reactions(reactions: String) -> (out: Vec<ReactionKey>)
    ensures
        keys(out@) == catalog(candidates(reactions@)),
{
    let mut found: Vec<ReactionKey> = Vec::new();
    assert(keys(found@) =~= Seq::<KeyView>::empty());

    let words: Vec<String> = split(reactions.as_str(), Separator::Whitespace);
    parse_all_into(&mut found, &words);

    let cut: Vec<String> = split(reactions.as_str(), Separator::Char('>'));
    proof {
        lemma_pieces_nonempty(reactions@, Separator::Char('>'));
    }
    let mut closed: Vec<String> = Vec::new();
    let mut i: usize = 0;
    assert(texts(cut@).len() == cut.len());
    while i + 1 < cut.len()
        invariant
            i + 1 <= cut.len(),
            texts(cut@) == pieces(reactions@, Separator::Char('>')),
            texts(closed@) == bracketed(reactions@).take(i as int),
        decreases cut.len() - i,
    {
        let mut piece: String = trim(cut[i].as_str());
        piece.push('>');
        let ghost had = texts(closed@);
        closed.push(piece);
        assert(texts(closed@) =~= had.push(piece@));
        assert(texts(cut@)[i as int] == cut@[i as int]@);
        assert(bracketed(reactions@).take(i + 1) =~= bracketed(reactions@).take(i as int).push(
            trimmed(cut@[i as int]@).push('>'),
        ));
        i = i + 1;
    }
    assert(bracketed(reactions@).take(i as int) =~= bracketed(reactions@));
    parse_all_into(&mut found, &closed);
    assert(keys(found@) =~= candidates(reactions@));

    let mut out: Vec<ReactionKey> = Vec::new();
    let mut n: usize = 0;
    assert(keys(found@).take(0) =~= Seq::<KeyView>::empty());
    assert(keys(out@) =~= Seq::<KeyView>::empty());
    while n < found.len()
        invariant
            n <= found.len(),
            keys(out@) == catalog(keys(found@).take(n as int)),
        decreases found.len() - n,
    {
        let k: ReactionKey = found[n].clone();
        assert(keys(found@).take(n + 1).drop_last() =~= keys(found@).take(n as int));
        assert(keys(found@).take(n + 1).last() == k@);
        file_key(&mut out, k);
        n = n + 1;
    }
    assert(keys(found@).take(n as int) =~= keys(found@));
    out
}

} // verus!
