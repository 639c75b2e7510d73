//! Vocabularies: tokens and their ids.

use crate::text::{chars_of, copy_str, find_text, string_of, utf8_text};
use vstd::prelude::*;
use vstd::slice::slice_subrange;

verus! {

/// A map from token texts to ids, held in a `hashbrown::HashMap`.
#[verifier::external_body]
pub struct VocabMap {
    map: hashbrown::HashMap<String, u32>,
}

/// The tokens of a map and their ids.
pub uninterp spec fn vocab_content(vocab: VocabMap) -> Map<Seq<char>, u32>;

/// `hashbrown::HashMap::new` is empty.
#[verifier::external_body]
fn vocab_new() -> (vocab: VocabMap)
    ensures
        vocab_content(vocab).dom() == Set::<Seq<char>>::empty(),
{
    VocabMap { map: hashbrown::HashMap::new() }
}

/// `hashbrown::HashMap::insert` puts an id under a token, in place of any other.
#[verifier::external_body]
fn vocab_insert(vocab: &mut VocabMap, token: String, id: u32)
    ensures
        vocab_content(*final(vocab)) == vocab_content(*old(vocab)).insert(token@, id),
{
    vocab.map.insert(token, id);
}

/// `hashbrown::HashMap::entry` with `or_insert` puts an id under a token that
/// has none.
#[verifier::external_body]
fn vocab_insert_new(vocab: &mut VocabMap, token: String, id: u32)
    ensures
        vocab_content(*final(vocab)) == (if vocab_content(*old(vocab)).dom().contains(token@) {
            vocab_content(*old(vocab))
        } else {
            vocab_content(*old(vocab)).insert(token@, id)
        }),
{
    vocab.map.entry(token).or_insert(id);
}

/// `hashbrown::HashMap::get` finds the id of a token.
#[verifier::external_body]
fn vocab_get(vocab: &VocabMap, token: &str) -> (id: Option<u32>)
    ensures
        match id {
            Some(i) => vocab_content(*vocab).dom().contains(token@) && vocab_content(
                *vocab,
            )[token@] == i,
            None => !vocab_content(*vocab).dom().contains(token@),
        },
{
    vocab.map.get(token).copied()
}

/// `hashbrown::HashMap::iter` visits every token with its id, in no particular
/// order.
#[verifier::external_body]
fn vocab_pairs(vocab: &VocabMap) -> (pairs: Vec<(String, u32)>)
    ensures
        forall|i: int|
            0 <= i < pairs@.len() ==> vocab_content(*vocab).dom().contains(
                (#[trigger] pairs@[i]).0@,
            ) && vocab_content(*vocab)[pairs@[i].0@] == pairs@[i].1,
        forall|t: Seq<char>| #[trigger]
            vocab_content(*vocab).dom().contains(t) ==> exists|i: int|
                0 <= i < pairs@.len() && (#[trigger] pairs@[i]).0@ == t,
{
    vocab.map.iter().map(|(token, id)| (token.clone(), *id)).collect()
}

impl View for VocabMap {
    type V = Map<Seq<char>, u32>;

    open spec fn view(&self) -> Map<Seq<char>, u32> {
        vocab_content(*self)
    }
}

impl VocabMap {
    /// A map without tokens.
    pub fn new() -> (r: VocabMap)
        ensures
            r@ == Map::<Seq<char>, u32>::empty(),
    {
        let r = vocab_new();
        proof {
            assert(r@ =~= Map::empty());
        }
        r
    }

    /// Put an id under a token, in place of any other.
    pub fn insert(&mut self, token: &str, id: u32)
        ensures
            final(self)@ == old(self)@.insert(token@, id),
    {
        vocab_insert(self, copy_str(token), id);
    }

    /// Put an id under a token that has none.
    pub fn insert_new(&mut self, token: &str, id: u32)
        ensures
            final(self)@ == (if old(self)@.dom().contains(token@) {
                old(self)@
            } else {
                old(self)@.insert(token@, id)
            }),
    {
        vocab_insert_new(self, copy_str(token), id);
    }

    /// The id of a token.
    pub fn get(&self, token: &str) -> (id: Option<u32>)
        ensures
            match id {
                Some(i) => self@.dom().contains(token@) && self@[token@] == i,
                None => !self@.dom().contains(token@),
            },
    {
        vocab_get(self, token)
    }
}

/// A vocabulary: the bytes of each token in the order of the ids, and the ids of
/// the tokens that are text.
pub struct VocabTable {
    tokens: Vec<Vec<u8>>,
    ids: VocabMap,
}

/// The bytes of some tokens.
pub open spec fn token_bytes(tokens: Seq<Vec<u8>>) -> Seq<Seq<u8>> {
    tokens.map_values(|t: Vec<u8>| t@)
}

/// The ids of the tokens that are text; of equal tokens the last counts.
pub open spec fn ids_of(tokens: Seq<Seq<u8>>) -> Map<Seq<char>, u32>
    decreases tokens.len(),
{
    if tokens.len() == 0 {
        Map::empty()
    } else {
        let front = ids_of(tokens.drop_last());
        if vstd::utf8::valid_utf8(tokens.last()) {
            front.insert(vstd::utf8::decode_utf8(tokens.last()), (tokens.len() - 1) as u32)
        } else {
            front
        }
    }
}

/// Whether `tokens` lists, at each id, a token that `ids` gives that id, or
/// nothing where it gives the id to none; and reaches as far as the greatest id, and
/// no further.
pub open spec fn lists(tokens: Seq<Seq<u8>>, ids: Map<Seq<char>, u32>) -> bool {
    &&& forall|t: Seq<char>| #[trigger] ids.dom().contains(t) ==> ids[t] < tokens.len()
    &&& forall|i: int|
        0 <= i < tokens.len() ==> {
            ||| exists|t: Seq<char>| #[trigger]
                ids.dom().contains(t) && ids[t] == i && (#[trigger] tokens[i])
                    == vstd::utf8::encode_utf8(t)
            ||| tokens[i] == Seq::<u8>::empty() && forall|t: Seq<char>| #[trigger]
                ids.dom().contains(t) ==> ids[t] != i
        }
    &&& tokens.len() == 0 || exists|t: Seq<char>| #[trigger]
        ids.dom().contains(t) && ids[t] == tokens.len() - 1
}

impl VocabTable {
    /// The bytes of the tokens in the order of their ids.
    pub closed spec fn tokens(&self) -> Seq<Seq<u8>> {
        token_bytes(self.tokens@)
    }

    /// The ids of the tokens that are text.
    pub closed spec fn ids(&self) -> Map<Seq<char>, u32> {
        self.ids@
    }

    /// A vocabulary whose ids are the positions of its tokens.
    pub fn new(tokens: Vec<Vec<u8>>) -> (r: VocabTable)
        ensures
            r.tokens() == token_bytes(tokens@),
            r.ids() == ids_of(token_bytes(tokens@)),
    {
        let ghost all = token_bytes(tokens@);
        let mut ids = VocabMap::new();
        let mut i: usize = 0;
        proof {
            assert(all.take(0) =~= Seq::empty());
        }
        while i < tokens.len()
            invariant
                i <= tokens@.len(),
                all == token_bytes(tokens@),
                ids@ == ids_of(all.take(i as int)),
            decreases tokens@.len() - i,
        {
            proof {
                assert(all.take(i + 1).drop_last() =~= all.take(i as int));
                assert(all.take(i + 1).last() == tokens@[i as int]@);
            }
            match utf8_text(tokens[i].as_slice()) {
                Some(t) => {
                    ids.insert(t, i as u32);
                },
                None => {},
            }
            i += 1;
        }
        proof {
            assert(all.take(all.len() as int) =~= all);
        }
        VocabTable { tokens, ids }
    }

    /// The number of ids.
    pub fn len(&self) -> (n: usize)
        ensures
            n == self.tokens().len(),
    {
        self.tokens.len()
    }

    /// The bytes of a token.
    pub fn token(&self, id: u32) -> (r: Option<&Vec<u8>>)
        ensures
            match r {
                Some(t) => id < self.tokens().len() && self.tokens()[id as int] == t@,
                None => id >= self.tokens().len(),
            },
    {
        if (id as u64) < self.tokens.len() as u64 {
            proof {
                assert(self.tokens()[id as int] == self.tokens@[id as int]@);
            }
            Some(&self.tokens[id as usize])
        } else {
            None
        }
    }

    /// The text of a token.
    pub fn id_to_str(&self, id: u32) -> (r: Option<&str>)
        ensures
            match r {
                Some(t) => token_text(self.tokens(), id) == Some(t@),
                None => token_text(self.tokens(), id) == None::<Seq<char>>,
            },
    {
        match self.token(id) {
            Some(t) => utf8_text(t.as_slice()),
            None => None,
        }
    }

    /// The id of a token.
    pub fn str_to_id(&self, token: &str) -> (r: Option<u32>)
        ensures
            match r {
                Some(id) => self.ids().dom().contains(token@) && self.ids()[token@] == id,
                None => !self.ids().dom().contains(token@),
            },
    {
        self.ids.get(token)
    }

    /// A vocabulary from a map of its tokens.
    pub fn from_vocab_map(map: VocabMap) -> (r: VocabTable)
        ensures
            r.ids() == map@,
            lists(r.tokens(), map@),
    {
        let pairs = vocab_pairs(&map);
        let mut tokens: Vec<Vec<u8>> = Vec::new();
        let ghost mut last: Seq<int> = Seq::empty();
        let ghost mut top: int = 0;
        let mut i: usize = 0;
        while i < pairs.len()
            invariant
                i <= pairs@.len(),
                last.len() == tokens@.len(),
                tokens@.len() == 0 || 0 <= top < i && pairs@[top].1 == tokens@.len() - 1,
                forall|k: int| 0 <= k < i ==> (#[trigger] pairs@[k]).1 < tokens@.len(),
                forall|j: int|
                    0 <= j < tokens@.len() ==> {
                        let p = #[trigger] last[j];
                        ||| 0 <= p < i && pairs@[p].1 == j && tokens@[j]@
                            == vstd::utf8::encode_utf8(pairs@[p].0@)
                        ||| p == -1 && tokens@[j]@ == Seq::<u8>::empty() && forall|k: int|
                            0 <= k < i ==> (#[trigger] pairs@[k]).1 != j
                    },
            decreases pairs@.len() - i,
        {
            let id: u32 = pairs[i].1;
            let ghost before = tokens@;
            let ghost before_last = last;
            while (tokens.len() as u64) <= id as u64
                invariant
                    i < pairs@.len(),
                    id == pairs@[i as int].1,
                    before.len() <= tokens@.len(),
                    tokens@.len() == before.len() || tokens@.len() <= id + 1,
                    last.len() == tokens@.len(),
                    forall|k: int| 0 <= k < i ==> (#[trigger] pairs@[k]).1 < before.len(),
                    forall|j: int|
                        0 <= j < before.len() ==> #[trigger] tokens@[j] == before[j] && last[j]
                            == before_last[j],
                    forall|j: int|
                        before.len() <= j < tokens@.len() ==> (#[trigger] tokens@[j])@ == Seq::<
                            u8,
                        >::empty() && last[j] == -1,
                ensures
                    tokens@.len() > id,
                decreases id + 1 - tokens@.len(),
            {
                let none: Vec<u8> = Vec::new();
                proof {
                    assert(none@ =~= Seq::empty());
                    last = last.push(-1);
                }
                tokens.push(none);
            }
            let bytes = vstd::slice::slice_to_vec(pairs[i].0.as_str().as_bytes());
            let ghost grown = tokens@;
            let ghost grown_last = last;
            tokens.set(id as usize, bytes);
            proof {
                if before.len() < tokens@.len() {
                    top = i as int;
                }
                last = last.update(id as int, i as int);
                assert forall|j: int| 0 <= j < tokens@.len() implies {
                    let p = #[trigger] last[j];
                    ||| 0 <= p < i + 1 && pairs@[p].1 == j && tokens@[j]@
                        == vstd::utf8::encode_utf8(pairs@[p].0@)
                    ||| p == -1 && tokens@[j]@ == Seq::<u8>::empty() && forall|k: int|
                        0 <= k < i + 1 ==> (#[trigger] pairs@[k]).1 != j
                } by {
                    if j != id {
                        assert(tokens@[j] == grown[j]);
                        assert(last[j] == grown_last[j]);
                        if j < before.len() {
                            assert(grown[j] == before[j]);
                            assert(before_last[j] == last[j]);
                        } else {
                            assert(grown[j]@ == Seq::<u8>::empty());
                            assert forall|k: int| 0 <= k < i + 1 implies (
                            #[trigger] pairs@[k]).1 != j by {}
                        }
                    }
                }
            }
            i += 1;
        }
        let r = VocabTable { tokens, ids: map };
        proof {
            let all = r.tokens();
            let m = map@;
            assert forall|t: Seq<char>| #[trigger] m.dom().contains(t) implies m[t]
                < all.len() by {
                let k = choose|k: int| 0 <= k < pairs@.len() && (#[trigger] pairs@[k]).0@ == t;
                assert(pairs@[k].1 < tokens@.len());
            }
            if all.len() > 0 {
                assert(m.dom().contains(pairs@[top].0@));
            }
            assert forall|j: int| 0 <= j < all.len() implies {
                ||| exists|t: Seq<char>| #[trigger]
                    m.dom().contains(t) && m[t] == j && (#[trigger] all[j])
                        == vstd::utf8::encode_utf8(t)
                ||| all[j] == Seq::<u8>::empty() && forall|t: Seq<char>| #[trigger]
                    m.dom().contains(t) ==> m[t] != j
            } by {
                let p = last[j];
                assert(all[j] == tokens@[j]@);
                if p >= 0 {
                    assert(m.dom().contains(pairs@[p].0@));
                } else {
                    assert forall|t: Seq<char>| #[trigger] m.dom().contains(t) implies m[t]
                        != j by {
                        let k = choose|k: int|
                            0 <= k < pairs@.len() && (#[trigger] pairs@[k]).0@ == t;
                        assert(pairs@[k].1 != j);
                    }
                }
            }
        }
        r
    }
}

/// A vocabulary map has one size, whatever order it is walked in: two tables that list
/// it have the same number of ids.
pub proof fn law_a_vocabulary_has_one_size(
    a: Seq<Seq<u8>>,
    b: Seq<Seq<u8>>,
    ids: Map<Seq<char>, u32>,
)
    requires
        lists(a, ids),
        lists(b, ids),
    ensures
        a.len() == b.len(),
{
}

/// The text of a token, where it is text.
pub open spec fn token_text(tokens: Seq<Seq<u8>>, id: u32) -> Option<Seq<char>> {
    if id < tokens.len() && vstd::utf8::valid_utf8(tokens[id as int]) {
        Some(vstd::utf8::decode_utf8(tokens[id as int]))
    } else {
        None
    }
}

/// One merge of a byte-pair encoding.
pub struct Merge {
    pub left: Vec<u8>,
    pub right: Vec<u8>,
}

/// The merges of a byte-pair encoding, in the order of their ranks.
pub struct MergeRules {
    pub merges: Vec<Merge>,
}

/// The merge that a JSON entry states: two strings in an array, or both in one
/// string with a space between them.
pub open spec fn merge_of(j: crate::json::JsonV) -> Option<(Seq<u8>, Seq<u8>)> {
    match j {
        crate::json::JsonV::Text(s) => match crate::text::find(s, " "@) {
            Some(i) => Some(
                (
                    vstd::utf8::encode_utf8(s.take(i)),
                    vstd::utf8::encode_utf8(s.skip(i + 1)),
                ),
            ),
            None => None,
        },
        crate::json::JsonV::Array(items) => if items.len() == 2 {
            match (crate::json::text_of(items[0]), crate::json::text_of(items[1])) {
                (Some(a), Some(b)) => Some(
                    (vstd::utf8::encode_utf8(a), vstd::utf8::encode_utf8(b)),
                ),
                _ => None,
            }
        } else {
            None
        },
        _ => None,
    }
}

/// The merges of a JSON list; an entry of another form states none.
pub open spec fn merges_of(items: Seq<crate::json::JsonV>) -> Seq<(Seq<u8>, Seq<u8>)>
    decreases items.len(),
{
    if items.len() == 0 {
        Seq::empty()
    } else {
        let front = merges_of(items.drop_last());
        match merge_of(items.last()) {
            Some(m) => front.push(m),
            None => front,
        }
    }
}

/// The models of some merges.
pub open spec fn merge_views(s: Seq<Merge>) -> Seq<(Seq<u8>, Seq<u8>)> {
    s.map_values(|m: Merge| (m.left@, m.right@))
}

fn text_bytes(s: &str) -> (r: Vec<u8>)
    ensures
        r@ == vstd::utf8::encode_utf8(s@),
{
    vstd::slice::slice_to_vec(s.as_bytes())
}

fn parse_merge(j: &crate::json::Json) -> (r: Option<Merge>)
    ensures
        match r {
            Some(m) => merge_of(j@) == Some((m.left@, m.right@)),
            None => merge_of(j@) == None::<(Seq<u8>, Seq<u8>)>,
        },
{
    proof {
        reveal_strlit(" ");
    }
    match j {
        crate::json::Json::Text(s) => {
            let chars = chars_of(s.as_str());
            match find_text(chars.as_slice(), " ") {
                Some(i) => {
                    let end: usize = chars.len();
                    let a = slice_subrange(chars.as_slice(), 0, i);
                    let b = slice_subrange(chars.as_slice(), i + 1, end);
                    proof {
                        assert(a@ =~= chars@.take(i as int));
                        assert(b@ =~= chars@.skip(i + 1));
                    }
                    let left = string_of(a);
                    let right = string_of(b);
                    Some(
                        Merge {
                            left: text_bytes(left.as_str()),
                            right: text_bytes(right.as_str()),
                        },
                    )
                },
                None => None,
            }
        },
        crate::json::Json::Array(items) => {
            proof {
                crate::json::lemma_item_views(items@);
            }
            if items.len() != 2 {
                return None;
            }
            proof {
                let v = crate::json::item_views(items@);
                assert(v[0] == items@[0]@);
                assert(v[1] == items@[1]@);
            }
            match (items[0].as_str(), items[1].as_str()) {
                (Some(a), Some(b)) => Some(Merge { left: text_bytes(a), right: text_bytes(b) }),
                _ => None,
            }
        },
        _ => None,
    }
}

impl MergeRules {
    /// The merges of a JSON list.
    pub fn from_json_merges(items: &Vec<crate::json::Json>) -> (r: MergeRules)
        ensures
            merge_views(r.merges@) == merges_of(crate::json::item_views(items@)),
    {
        let ghost views = crate::json::item_views(items@);
        let mut merges: Vec<Merge> = Vec::new();
        let mut i: usize = 0;
        proof {
            crate::json::lemma_item_views(items@);
            assert(views.take(0) =~= Seq::empty());
            assert(merge_views(merges@) =~= Seq::empty());
        }
        while i < items.len()
            invariant
                i <= items@.len(),
                views == crate::json::item_views(items@),
                views.len() == items@.len(),
                forall|k: int| 0 <= k < items@.len() ==> #[trigger] views[k] == items@[k]@,
                merge_views(merges@) == merges_of(views.take(i as int)),
            decreases items@.len() - i,
        {
            let ghost before = merge_views(merges@);
            proof {
                assert(views.take(i + 1).drop_last() =~= views.take(i as int));
                assert(views.take(i + 1).last() == items@[i as int]@);
            }
            match parse_merge(&items[i]) {
                Some(m) => {
                    let ghost pair = (m.left@, m.right@);
                    merges.push(m);
                    proof {
                        assert(merge_views(merges@) =~= before.push(pair));
                    }
                },
                None => {},
            }
            i += 1;
        }
        proof {
            assert(views.take(views.len() as int) =~= views);
        }
        MergeRules { merges }
    }
}

/// The text of a token is the one whose bytes the token holds; a token of other bytes
/// has none, and neither has an unknown id.
pub proof fn law_a_token_text_is_its_bytes(tokens: Seq<Seq<u8>>, id: u32, t: Seq<char>)
    ensures
        token_text(tokens, id) == Some(t) <==> id < tokens.len() && tokens[id as int]
            == vstd::utf8::encode_utf8(t),
{
    lemma_text_of_bytes(t);
    if id < tokens.len() {
        let b = tokens[id as int];
        if vstd::utf8::valid_utf8(b) {
            vstd::utf8::decode_utf8_encode_utf8(b);
        }
    }
}

proof fn lemma_text_of_bytes(t: Seq<char>)
    ensures
        vstd::utf8::valid_utf8(vstd::utf8::encode_utf8(t)),
        vstd::utf8::decode_utf8(vstd::utf8::encode_utf8(t)) == t,
{
    vstd::utf8::encode_utf8_valid_utf8(t);
    vstd::utf8::encode_utf8_decode_utf8(t);
}

/// The id of a text is the last place at which its bytes stand among the tokens; a text
/// whose bytes stand nowhere has none.
pub proof fn law_an_id_is_the_last_place_of_a_text(tokens: Seq<Seq<u8>>, t: Seq<char>)
    requires
        tokens.len() <= u32::MAX,
    ensures
        ids_of(tokens).dom().contains(t) ==> ids_of(tokens)[t] < tokens.len()
            && tokens[ids_of(tokens)[t] as int] == vstd::utf8::encode_utf8(t) && forall|k: int|
            ids_of(tokens)[t] < k < tokens.len() ==> #[trigger] tokens[k]
                != vstd::utf8::encode_utf8(t),
        !ids_of(tokens).dom().contains(t) ==> forall|k: int|
            0 <= k < tokens.len() ==> #[trigger] tokens[k] != vstd::utf8::encode_utf8(t),
    decreases tokens.len(),
{
    lemma_text_of_bytes(t);
    if tokens.len() > 0 {
        let front = tokens.drop_last();
        law_an_id_is_the_last_place_of_a_text(front, t);
        let last = tokens.last();
        if vstd::utf8::valid_utf8(last) {
            vstd::utf8::decode_utf8_encode_utf8(last);
        }
        assert(tokens[tokens.len() - 1] == last);
        assert forall|k: int| 0 <= k < front.len() implies #[trigger] tokens[k] == front[k] by {}
    }
}

/// A merge is stated by two texts: in an array of the two, or in one text with a space
/// behind the first, which itself holds none. Nothing else states a merge.
pub proof fn law_a_merge_is_two_texts(a: Seq<char>, b: Seq<char>, j: crate::json::JsonV)
    ensures
        !a.contains(' ') ==> merge_of(crate::json::JsonV::Text(a + seq![' '] + b)) == Some(
            (vstd::utf8::encode_utf8(a), vstd::utf8::encode_utf8(b)),
        ),
        !a.contains(' ') ==> merge_of(crate::json::JsonV::Text(a)) == None::<(Seq<u8>, Seq<u8>)>,
        merge_of(
            crate::json::JsonV::Array(
                seq![crate::json::JsonV::Text(a), crate::json::JsonV::Text(b)],
            ),
        ) == Some((vstd::utf8::encode_utf8(a), vstd::utf8::encode_utf8(b))),
        !(j is Text) && !(j matches crate::json::JsonV::Array(items) && items.len() == 2
            && items[0] is Text && items[1] is Text) ==> merge_of(j) == None::<(Seq<u8>, Seq<u8>)>,
{
    reveal_strlit(" ");
    assert(" "@ =~= seq![' ']);
    if !a.contains(' ') {
        assert forall|i: int| 0 <= i < a.len() implies a[i] != ' ' by {
            assert(a.contains(a[i]));
        }
        crate::text::lemma_find_behind(a, seq![' '], b);
        crate::text::lemma_find_nothing(a, seq![' ']);
        let s = a + seq![' '] + b;
        assert(s.take(a.len() as int) =~= a);
        assert(s.skip(a.len() as int + 1) =~= b);
    }
}

/// The merges of a list stand in the order of their entries, each entry that states a
/// merge giving that one and every other none.
pub proof fn law_merges_stand_in_order(
    a: Seq<crate::json::JsonV>,
    b: Seq<crate::json::JsonV>,
    j: crate::json::JsonV,
)
    ensures
        merges_of(a + b) == merges_of(a) + merges_of(b),
        merges_of(seq![j]) == (match merge_of(j) {
            Some(m) => seq![m],
            None => Seq::empty(),
        }),
        merges_of(Seq::empty()) == Seq::<(Seq<u8>, Seq<u8>)>::empty(),
    decreases b.len(),
{
    reveal_with_fuel(merges_of, 2);
    assert(seq![j].drop_last() =~= Seq::empty());
    assert(seq![j].last() == j);
    assert(merges_of(seq![j]) =~= (match merge_of(j) {
        Some(m) => seq![m],
        None => Seq::empty(),
    }));
    if b.len() == 0 {
        assert(a + b =~= a);
        assert(merges_of(a) + merges_of(b) =~= merges_of(a));
    } else {
        law_merges_stand_in_order(a, b.drop_last(), j);
        assert((a + b).drop_last() =~= a + b.drop_last());
        assert((a + b).last() == b.last());
        assert(merges_of(a + b) =~= merges_of(a) + merges_of(b));
    }
}

/// A listed vocabulary finds its tokens again: the entry at the id of a text is a text
/// of that id, and its bytes are there for every id that is given to just one text.
pub proof fn law_a_listed_text_is_found_at_its_id(
    tokens: Seq<Seq<u8>>,
    ids: Map<Seq<char>, u32>,
    t: Seq<char>,
)
    requires
        lists(tokens, ids),
        ids.dom().contains(t),
        forall|u: Seq<char>| #[trigger] ids.dom().contains(u) && ids[u] == ids[t] ==> u == t,
    ensures
        ids[t] < tokens.len(),
        tokens[ids[t] as int] == vstd::utf8::encode_utf8(t),
        token_text(tokens, ids[t]) == Some(t),
{
    let i = ids[t] as int;
    assert(tokens[i] == vstd::utf8::encode_utf8(t));
    law_a_token_text_is_its_bytes(tokens, ids[t], t);
}

/// Tokens and merges are modelled by their bytes, each at its own place.
pub proof fn law_tokens_and_merges_are_modelled_whole(tokens: Seq<Vec<u8>>, merges: Seq<Merge>)
    ensures
        token_bytes(tokens).len() == tokens.len(),
        forall|i: int| 0 <= i < tokens.len() ==> #[trigger] token_bytes(tokens)[i] == tokens[i]@,
        merge_views(merges).len() == merges.len(),
        forall|i: int|
            0 <= i < merges.len() ==> (#[trigger] merge_views(merges)[i]).0 == merges[i].left@
                && merge_views(merges)[i].1 == merges[i].right@,
{
}

/// A token that is inserted is found at its id, and one that is only to be added keeps
/// the id that it has; every other token finds what it found before.
pub proof fn law_an_inserted_token_is_found(
    map: &mut VocabMap,
    added: &mut VocabMap,
    token: &str,
    id: u32,
    asked: &str,
    before: Option<u32>,
    after: Option<u32>,
    kept: Option<u32>,
)
    requires
        *map == *added,
        call_ensures(VocabMap::insert, (map, token, id), ()),
        call_ensures(VocabMap::insert_new, (added, token, id), ()),
        call_ensures(VocabMap::get, (&*map, asked), before),
        call_ensures(VocabMap::get, (&*final(map), asked), after),
        call_ensures(VocabMap::get, (&*final(added), asked), kept),
    ensures
        asked@ == token@ ==> after == Some(id),
        asked@ == token@ && before is None ==> kept == Some(id),
        asked@ == token@ && before is Some ==> kept == before,
        asked@ != token@ ==> after == before && kept == before,
{
}

} // verus!
