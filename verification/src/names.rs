//! Contact names: how a contact is shown, and which contact a name stands for.

use std::collections::HashMap;

use vstd::prelude::*;

use crate::content::{group_message_reads_back, sender_mark};
use crate::name_map::{
    as_map, distinct_keys, keys_are_those_of_pairs, lemma_with_pair, with_pair, NameMap,
};
use crate::rows::{
    contact_in, contact_row, contacts_are_read_by_column, id_names, row_values, text_at,
    text_or_empty, ContactView, RowError, SqlValue,
};
use crate::tables::{hash_of, name_hash};
use crate::text::{
    begins_with, contains, cut_at_the_first_mark, has_part, lemma_find, occurs_at, opt_text,
    same_text, split_at_mark, split_once, starts_with, texts,
};

verus! {

/// What is known of the contacts.
pub struct Names {
    /// From a contact's user name to the name that is shown for it.
    pub map: NameMap,
    /// From the MD5 of a user name, in hexadecimal, to the user name.
    pub md5_to_uname: NameMap,
    /// The message databases, by their relative paths.
    pub msg_db_keys: Vec<String>,
}

/// The name shown for a user name: its own entry, or the user name itself.
pub open spec fn shown_name(map: Map<Seq<char>, Seq<char>>, username: Seq<char>) -> Seq<char> {
    if map.contains_key(username) {
        map[username]
    } else {
        username
    }
}

fn name_in(map: &NameMap, username: &str) -> (name: String)
    ensures
        name@ == shown_name(map@, username@),
{
    match map.get(username) {
        Some(name) => name.clone(),
        None => username.to_owned(),
    }
}

impl Names {
    /// The name shown for a user name.
    pub fn display(&self, username: &str) -> (name: String)
        ensures
            name@ == shown_name(self.map@, username@),
    {
        name_in(&self.map, username)
    }
}

impl Clone for Names {
    fn clone(&self) -> (names: Names)
        ensures
            names.map.pairs() == self.map.pairs(),
            names.md5_to_uname.pairs() == self.md5_to_uname.pairs(),
            names.msg_db_keys@ == self.msg_db_keys@,
    {
        let mut keys: Vec<String> = Vec::new();
        for i in 0..self.msg_db_keys.len()
            invariant
                keys@ == self.msg_db_keys@.take(i as int),
        {
            keys.push(self.msg_db_keys[i].clone());
        }
        Names { map: self.map.clone(), md5_to_uname: self.md5_to_uname.clone(), msg_db_keys: keys }
    }
}

// ---------------------------------------------------------------------------
// Loading

/// The name that a contact is shown by: the remark, or the nickname if there
/// is no remark, or the user name if there is neither.
pub open spec fn chosen_name(c: ContactView) -> Seq<char> {
    if c.remark.len() > 0 {
        c.remark
    } else if c.nick_name.len() > 0 {
        c.nick_name
    } else {
        c.username
    }
}

/// The user names in rows of contacts, with the names they are shown by.
pub open spec fn contact_pairs(rows: Seq<Seq<SqlValue>>) -> Seq<(Seq<char>, Seq<char>)>
    decreases rows.len(),
{
    if rows.len() == 0 {
        Seq::empty()
    } else {
        let rest = contact_pairs(rows.drop_last());
        match contact_in(rows.last()) {
            Some(c) => with_pair(rest, c.username, chosen_name(c)),
            None => rest,
        }
    }
}

/// The hashes of user names, with the user names.
pub open spec fn hash_pairs(usernames: Seq<Seq<char>>) -> Seq<(Seq<char>, Seq<char>)>
    decreases usernames.len(),
{
    if usernames.len() == 0 {
        Seq::empty()
    } else {
        with_pair(
            hash_pairs(usernames.drop_last()),
            name_hash(usernames.last()),
            usernames.last(),
        )
    }
}

/// The keys of pairs.
pub open spec fn keys_of(pairs: Seq<(Seq<char>, Seq<char>)>) -> Seq<Seq<char>> {
    pairs.map_values(|p: (Seq<char>, Seq<char>)| p.0)
}

/// Position `i` is that of the first row that holds no contact.
pub open spec fn first_bad_contact(rows: Seq<Seq<SqlValue>>, i: int) -> bool {
    &&& 0 <= i < rows.len()
    &&& contact_in(rows[i]) is None
    &&& forall|j: int| 0 <= j < i ==> contact_in(#[trigger] rows[j]) is Some
}

/// Makes the names from the rows of the contact table: user name, nickname and
/// remark. A row without a user name is an error.
pub fn load_names(rows: &Vec<Vec<SqlValue>>) -> (names: Result<Names, RowError>)
    ensures
        match names {
            Ok(names) => {
                &&& forall|i: int|
                    0 <= i < rows@.len() ==> contact_in(#[trigger] row_values(rows@)[i]) is Some
                &&& names.map.pairs() == contact_pairs(row_values(rows@))
                &&& names.md5_to_uname.pairs() == hash_pairs(keys_of(names.map.pairs()))
                &&& names.msg_db_keys@.len() == 0
            },
            Err(e) => first_bad_contact(row_values(rows@), e.row as int) && e.column == 0,
        },
{
    let ghost all = row_values(rows@);
    let mut map = NameMap::new();
    assert(map.pairs() =~= contact_pairs(all.take(0)));
    for i in 0..rows.len()
        invariant
            all == row_values(rows@),
            map.pairs() == contact_pairs(all.take(i as int)),
            forall|j: int| 0 <= j < i ==> contact_in(#[trigger] all[j]) is Some,
    {
        proof {
            assert(all.take(i + 1).drop_last() =~= all.take(i as int));
            assert(all[i as int] == rows@[i as int]@);
        }
        match contact_row(rows[i].as_slice()) {
            Some(c) => {
                let name = if !c.remark.as_str().is_empty() {
                    c.remark
                } else if !c.nick_name.as_str().is_empty() {
                    c.nick_name
                } else {
                    c.username.clone()
                };
                map.insert(c.username, name);
            },
            None => return Err(RowError { row: i, column: 0 }),
        }
    }
    assert(all.take(rows@.len() as int) =~= all);
    let ghost keys = keys_of(map.pairs());
    let n = map.len();
    let mut hashes = NameMap::new();
    assert(hashes.pairs() =~= hash_pairs(keys.take(0)));
    for i in 0..n
        invariant
            n == map.pairs().len(),
            keys == keys_of(map.pairs()),
            hashes.pairs() == hash_pairs(keys.take(i as int)),
    {
        assert(keys.take(i + 1).drop_last() =~= keys.take(i as int));
        let username = map.key(i);
        hashes.insert(hash_of(username.as_str()), username.clone());
    }
    assert(keys.take(n as int) =~= keys);
    Ok(Names { map, md5_to_uname: hashes, msg_db_keys: Vec::new() })
}

// ---------------------------------------------------------------------------
// From a name to a contact

/// What `str::to_lowercase` makes of text that is not empty.
pub uninterp spec fn lowered(s: Seq<char>) -> Seq<char>;

/// Text in lower case.
pub open spec fn lowercase(s: Seq<char>) -> Seq<char> {
    if s.len() == 0 {
        Seq::empty()
    } else {
        lowered(s)
    }
}

/// `str::to_lowercase`. Empty text has nothing to change. Of other text the
/// result depends on the text alone and is named, not described.
#[verifier::external_body]
pub(crate) fn to_lowercase(s: &str) -> (low: String)
    ensures
        s@.len() == 0 ==> low@ == Seq::<char>::empty(),
        s@.len() > 0 ==> low@ == lowered(s@),
{
    s.to_lowercase()
}

/// Position `i` is the leftmost whose item satisfies `p`.
pub open spec fn leftmost<T>(s: Seq<T>, p: spec_fn(T) -> bool, i: int) -> bool {
    0 <= i < s.len() && p(s[i]) && forall|j: int| 0 <= j < i ==> !p(#[trigger] s[j])
}

/// The leftmost position whose item satisfies `p`, if there is one.
pub open spec fn first_index<T>(s: Seq<T>, p: spec_fn(T) -> bool) -> Option<int> {
    if exists|i: int| leftmost(s, p, i) {
        Some(choose|i: int| leftmost(s, p, i))
    } else {
        None
    }
}

/// A leftmost position is the only one, so exhibiting it determines
/// `first_index`.
pub proof fn lemma_first_index<T>(s: Seq<T>, p: spec_fn(T) -> bool, i: int)
    requires
        leftmost(s, p, i),
    ensures
        first_index(s, p) == Some(i),
{
    let k = choose|k: int| leftmost(s, p, k);
    assert(leftmost(s, p, k));
    assert(k == i) by {
        if k < i {
            assert(!p(s[k]));
        }
        if i < k {
            assert(!p(s[i]));
        }
    }
}

/// Some item satisfies `p` exactly if there is a leftmost one that does.
pub proof fn lemma_some_index<T>(s: Seq<T>, p: spec_fn(T) -> bool, i: int)
    requires
        0 <= i < s.len(),
        p(s[i]),
    ensures
        first_index(s, p) is Some,
    decreases i,
{
    if exists|j: int| 0 <= j < i && p(#[trigger] s[j]) {
        let j = choose|j: int| 0 <= j < i && p(#[trigger] s[j]);
        lemma_some_index(s, p, j);
    } else {
        assert(leftmost(s, p, i));
    }
}

/// Names equal to a text.
pub open spec fn equal_to(text: Seq<char>) -> spec_fn(Seq<char>) -> bool {
    |n: Seq<char>| n == text
}

/// Names that a text is a part of.
pub open spec fn holding(text: Seq<char>) -> spec_fn(Seq<char>) -> bool {
    |n: Seq<char>| has_part(n, text)
}

/// The position of the name that a text stands for: the first that equals the
/// text, or else the first that the text is a part of.
pub open spec fn picked(text: Seq<char>, names: Seq<Seq<char>>) -> Option<int> {
    match first_index(names, equal_to(text)) {
        Some(i) => Some(i),
        None => first_index(names, holding(text)),
    }
}

/// The first position whose name equals the text, or else the first whose name
/// the text is a part of.
pub fn pick_name(text: &str, names: &Vec<String>) -> (pick: Option<usize>)
    ensures
        match pick {
            Some(i) => i < names@.len() && picked(text@, texts(names@)) == Some(i as int),
            None => picked(text@, texts(names@)) is None,
        },
{
    let ghost views = texts(names@);
    for i in 0..names.len()
        invariant
            views == texts(names@),
            forall|j: int| 0 <= j < i ==> !equal_to(text@)(#[trigger] views[j]),
    {
        assert(views[i as int] == names@[i as int]@);
        if same_text(names[i].as_str(), text) {
            proof {
                lemma_first_index(views, equal_to(text@), i as int);
            }
            return Some(i);
        }
    }
    for i in 0..names.len()
        invariant
            views == texts(names@),
            first_index(views, equal_to(text@)) is None,
            forall|j: int| 0 <= j < i ==> !holding(text@)(#[trigger] views[j]),
    {
        assert(views[i as int] == names@[i as int]@);
        if contains(names[i].as_str(), text) {
            proof {
                lemma_first_index(views, holding(text@), i as int);
            }
            return Some(i);
        }
    }
    None
}

/// Text that is a user name by itself: a known user name, a group's, or one of
/// the form that users get by default.
pub open spec fn is_username(map: Map<Seq<char>, Seq<char>>, text: Seq<char>) -> bool {
    ||| map.contains_key(text)
    ||| has_part(text, "@chatroom"@)
    ||| begins_with(text, "wxid_"@)
}

/// The shown names in pairs, in lower case.
pub open spec fn low_names(pairs: Seq<(Seq<char>, Seq<char>)>) -> Seq<Seq<char>> {
    pairs.map_values(|p: (Seq<char>, Seq<char>)| lowercase(p.1))
}

/// The user name that a chat name stands for: itself if it is one, or else that
/// of the contact picked by its shown name, in lower case.
pub open spec fn resolved(pairs: Seq<(Seq<char>, Seq<char>)>, chat: Seq<char>) -> Option<
    Seq<char>,
> {
    if is_username(as_map(pairs), chat) {
        Some(chat)
    } else {
        match picked(lowercase(chat), low_names(pairs)) {
            Some(i) => Some(pairs[i].0),
            None => None,
        }
    }
}

/// The user name that a chat name stands for.
pub fn resolve_username(chat_name: &str, names: &Names) -> (username: Option<String>)
    ensures
        opt_text(username) == resolved(names.map.pairs(), chat_name@),
{
    if names.map.contains_key(chat_name) || contains(chat_name, "@chatroom") || starts_with(
        chat_name,
        "wxid_",
    ) {
        return Some(chat_name.to_owned());
    }
    let low = to_lowercase(chat_name);
    let n = names.map.len();
    let ghost pairs = names.map.pairs();
    let mut lows: Vec<String> = Vec::new();
    for i in 0..n
        invariant
            pairs == names.map.pairs(),
            n == pairs.len(),
            lows@.len() == i,
            forall|j: int| 0 <= j < i ==> (#[trigger] lows@[j])@ == lowercase(pairs[j].1),
    {
        lows.push(to_lowercase(names.map.value(i).as_str()));
    }
    assert(texts(lows@) =~= low_names(pairs));
    match pick_name(low.as_str(), &lows) {
        Some(i) => Some(names.map.key(i).clone()),
        None => None,
    }
}

// ---------------------------------------------------------------------------
// Senders

/// How the sender of a message is shown. The stored sender counts unless it is
/// the chat itself; in a group the name before the text counts next; there may
/// be nothing to show.
pub open spec fn sender_shown(
    sender: Seq<char>,
    content: Seq<char>,
    is_group: bool,
    chat: Seq<char>,
    map: Map<Seq<char>, Seq<char>>,
) -> Seq<char> {
    if sender.len() > 0 && sender != chat {
        shown_name(map, sender)
    } else if is_group {
        match split_at_mark(content, sender_mark()) {
            Some((name, _)) => shown_name(map, name),
            None => Seq::empty(),
        }
    } else {
        Seq::empty()
    }
}

/// The user name stored for a sender id, or none.
pub open spec fn sender_of(ids: Map<i64, Seq<char>>, id: i64) -> Seq<char> {
    if ids.contains_key(id) {
        ids[id]
    } else {
        Seq::empty()
    }
}

/// How the sender of a message is shown.
pub fn sender_label(
    real_sender_id: i64,
    content: &str,
    is_group: bool,
    chat_username: &str,
    id2u: &HashMap<i64, String>,
    names: &NameMap,
) -> (label: String)
    ensures
        label@ == sender_shown(
            sender_of(id_names(id2u@), real_sender_id),
            content@,
            is_group,
            chat_username@,
            names@,
        ),
{
    let sender = match id2u.get(&real_sender_id) {
        Some(u) => u.clone(),
        None => String::new(),
    };
    let sender = sender.as_str();
    if !sender.is_empty() && !same_text(sender, chat_username) {
        return name_in(names, sender);
    }
    if is_group {
        if let Some((name, _)) = split_once(content, ":\n") {
            return name_in(names, name.as_str());
        }
    }
    String::new()
}

// ---------------------------------------------------------------------------
// Laws

/// No user name is listed twice among the names that were loaded, and every
/// contact that was read is listed.
pub proof fn contacts_are_listed_once(rows: Seq<Seq<SqlValue>>)
    ensures
        distinct_keys(contact_pairs(rows)),
        forall|i: int|
            0 <= i < rows.len() ==> (contact_in(#[trigger] rows[i]) matches Some(c) ==> as_map(
                contact_pairs(rows),
            ).contains_key(c.username)),
    decreases rows.len(),
{
    if rows.len() > 0 {
        let rest = rows.drop_last();
        contacts_are_listed_once(rest);
        if let Some(last) = contact_in(rows.last()) {
            lemma_with_pair(contact_pairs(rest), last.username, chosen_name(last));
        }
        assert forall|i: int| 0 <= i < rows.len() implies (contact_in(
            #[trigger] rows[i],
        ) matches Some(c) ==> as_map(contact_pairs(rows)).contains_key(c.username)) by {
            if i < rest.len() {
                assert(rest[i] == rows[i]);
            } else {
                assert(rows.last() == rows[i]);
            }
        }
    }
}

/// A contact is shown as its latest row says.
pub proof fn latest_row_names_contact(rows: Seq<Seq<SqlValue>>, i: int, c: ContactView)
    requires
        0 <= i < rows.len(),
        contact_in(rows[i]) == Some(c),
        forall|j: int|
            i < j < rows.len() ==> (contact_in(#[trigger] rows[j]) matches Some(d)
                ==> d.username != c.username),
    ensures
        shown_name(as_map(contact_pairs(rows)), c.username) == chosen_name(c),
    decreases rows.len(),
{
    let rest = rows.drop_last();
    contacts_are_listed_once(rest);
    contacts_are_listed_once(rows);
    if let Some(last) = contact_in(rows.last()) {
        lemma_with_pair(contact_pairs(rest), last.username, chosen_name(last));
    }
    assert(rows.last() == rows[rows.len() - 1]);
    if i < rest.len() {
        assert forall|j: int| i < j < rest.len() implies (contact_in(
            #[trigger] rest[j],
        ) matches Some(d) ==> d.username != c.username) by {
            assert(rest[j] == rows[j]);
        }
        latest_row_names_contact(rest, i, c);
        assert(as_map(contact_pairs(rest)).contains_key(c.username)) by {
            assert(rest[i] == rows[i]);
        }
    }
}

/// Every user name is found by its hash, and what is found by a hash is one of
/// the user names and has that hash.
pub proof fn hashes_lead_back(usernames: Seq<Seq<char>>)
    ensures
        distinct_keys(hash_pairs(usernames)),
        forall|i: int|
            0 <= i < usernames.len() ==> #[trigger] as_map(hash_pairs(usernames)).contains_key(
                name_hash(usernames[i]),
            ),
        forall|hash: Seq<char>| #[trigger]
            as_map(hash_pairs(usernames)).contains_key(hash) ==> usernames.contains(
                as_map(hash_pairs(usernames))[hash],
            ) && name_hash(as_map(hash_pairs(usernames))[hash]) == hash,
    decreases usernames.len(),
{
    let found = as_map(hash_pairs(usernames));
    if usernames.len() > 0 {
        let rest = usernames.drop_last();
        let last = usernames.last();
        let earlier = as_map(hash_pairs(rest));
        hashes_lead_back(rest);
        lemma_with_pair(hash_pairs(rest), name_hash(last), last);
        assert forall|i: int| 0 <= i < usernames.len() implies #[trigger] found.contains_key(
            name_hash(usernames[i]),
        ) by {
            if i < rest.len() {
                assert(rest[i] == usernames[i]);
                assert(earlier.contains_key(name_hash(rest[i])));
            }
        }
        assert forall|hash: Seq<char>| #[trigger] found.contains_key(hash) implies usernames.contains(
            found[hash],
        ) && name_hash(found[hash]) == hash by {
            if hash == name_hash(last) {
                assert(usernames[usernames.len() - 1] == last);
            } else {
                assert(earlier.contains_key(hash));
                let k = choose|k: int| 0 <= k < rest.len() && rest[k] == earlier[hash];
                assert(usernames[k] == found[hash]);
            }
        }
    }
}

/// A user name, a group's name and a name of the default form stand for
/// themselves.
pub proof fn user_names_stand_for_themselves(
    pairs: Seq<(Seq<char>, Seq<char>)>,
    chat: Seq<char>,
)
    requires
        is_username(as_map(pairs), chat),
    ensures
        resolved(pairs, chat) == Some(chat),
{
}

/// A pair of user name and shown name whose shown name equals a text, in lower
/// case.
pub open spec fn named_exactly(pair: (Seq<char>, Seq<char>), chat: Seq<char>) -> bool {
    lowercase(pair.1) == lowercase(chat)
}

/// A pair of user name and shown name whose shown name a text is a part of, in
/// lower case.
pub open spec fn named_in_part(pair: (Seq<char>, Seq<char>), chat: Seq<char>) -> bool {
    has_part(lowercase(pair.1), lowercase(chat))
}

/// A name that is no user name stands for a listed contact. If any contact is
/// shown by just that name, the one found is; otherwise the name is a part of
/// the one that the contact found is shown by. This holds whatever the order
/// in which contacts are listed.
pub proof fn names_stand_for_contacts(pairs: Seq<(Seq<char>, Seq<char>)>, chat: Seq<char>)
    requires
        !is_username(as_map(pairs), chat),
    ensures
        resolved(pairs, chat) is Some <==> exists|i: int|
            0 <= i < pairs.len() && (named_exactly(#[trigger] pairs[i], chat) || named_in_part(
                pairs[i],
                chat,
            )),
        resolved(pairs, chat) matches Some(username) ==> exists|i: int|
            {
                &&& 0 <= i < pairs.len()
                &&& (#[trigger] pairs[i]).0 == username
                &&& if exists|j: int| 0 <= j < pairs.len() && named_exactly(#[trigger] pairs[j], chat) {
                    named_exactly(pairs[i], chat)
                } else {
                    named_in_part(pairs[i], chat)
                }
            },
{
    let low = lowercase(chat);
    let names = low_names(pairs);
    assert forall|i: int| 0 <= i < pairs.len() implies #[trigger] names[i] == lowercase(
        pairs[i].1,
    ) by {}
    let exact = first_index(names, equal_to(low));
    let part = first_index(names, holding(low));
    if exists|j: int| 0 <= j < pairs.len() && named_exactly(#[trigger] pairs[j], chat) {
        let j = choose|j: int| 0 <= j < pairs.len() && named_exactly(#[trigger] pairs[j], chat);
        assert(names[j] == lowercase(pairs[j].1));
        lemma_some_index(names, equal_to(low), j);
        let i = exact->0;
        assert(leftmost(names, equal_to(low), i));
        assert(named_exactly(pairs[i], chat));
    } else {
        if exact is Some {
            let i = exact->0;
            assert(leftmost(names, equal_to(low), i));
            assert(named_exactly(pairs[i], chat));
        }
        if part is Some {
            let i = part->0;
            assert(leftmost(names, holding(low), i));
            assert(named_in_part(pairs[i], chat));
        }
        if exists|j: int|
            0 <= j < pairs.len() && (named_exactly(#[trigger] pairs[j], chat) || named_in_part(
                pairs[j],
                chat,
            )) {
            let j = choose|j: int|
                0 <= j < pairs.len() && (named_exactly(#[trigger] pairs[j], chat) || named_in_part(
                    pairs[j],
                    chat,
                ));
            assert(names[j] == lowercase(pairs[j].1));
            lemma_some_index(names, holding(low), j);
        }
    }
}

/// The empty name stands for some contact, if there is any.
pub proof fn empty_name_stands_for_a_contact(pairs: Seq<(Seq<char>, Seq<char>)>)
    ensures
        resolved(pairs, Seq::empty()) is Some <==> pairs.len() > 0 || is_username(
            as_map(pairs),
            Seq::empty(),
        ),
{
    let chat = Seq::<char>::empty();
    if !is_username(as_map(pairs), chat) {
        names_stand_for_contacts(pairs, chat);
        if pairs.len() > 0 {
            assert(occurs_at(lowercase(pairs[0].1), chat, 0)) by {
                assert(lowercase(pairs[0].1).subrange(0, 0) =~= chat);
            }
            assert(named_in_part(pairs[0], chat));
        }
    }
}

/// Every listed contact can be asked for by the name it is shown by: the name
/// stands for it if no other contact is shown by that name, in lower case, and
/// the name is no user name.
pub proof fn shown_name_leads_back(pairs: Seq<(Seq<char>, Seq<char>)>, i: int)
    requires
        0 <= i < pairs.len(),
        !is_username(as_map(pairs), pairs[i].1),
        forall|j: int|
            0 <= j < pairs.len() && j != i ==> !named_exactly(#[trigger] pairs[j], pairs[i].1),
    ensures
        resolved(pairs, pairs[i].1) == Some(pairs[i].0),
{
    let low = lowercase(pairs[i].1);
    let names = low_names(pairs);
    assert(names[i] == low);
    assert forall|j: int| 0 <= j < i implies !equal_to(low)(#[trigger] names[j]) by {
        assert(!named_exactly(pairs[j], pairs[i].1));
    }
    lemma_first_index(names, equal_to(low), i);
}

/// In a group, a message that is stored with no sender is shown with the
/// sender that stands before its text.
pub proof fn group_sender_is_shown(
    sender: Seq<char>,
    text: Seq<char>,
    chat: Seq<char>,
    map: Map<Seq<char>, Seq<char>>,
)
    requires
        !has_part(sender, sender_mark()),
    ensures
        sender_shown(Seq::empty(), sender + sender_mark() + text, true, chat, map) == shown_name(
            map,
            sender,
        ),
        sender_shown(chat, sender + sender_mark() + text, true, chat, map) == shown_name(
            map,
            sender,
        ),
{
    group_message_reads_back(sender, text);
}

/// In a chat of two, a message is shown without a sender exactly if none is
/// stored or the stored one is the chat itself.
pub proof fn partner_is_not_shown(
    sender: Seq<char>,
    content: Seq<char>,
    chat: Seq<char>,
    map: Map<Seq<char>, Seq<char>>,
)
    ensures
        sender_shown(sender, content, false, chat, map) == (if sender.len() == 0 || sender == chat {
            Seq::empty()
        } else {
            shown_name(map, sender)
        }),
{
}

/// A user is shown by the name that was entered for it last, and without an
/// entry by the user name; entries for others have no say.
pub proof fn entries_name_their_users(
    map: Map<Seq<char>, Seq<char>>,
    username: Seq<char>,
    name: Seq<char>,
    other: Seq<char>,
)
    ensures
        shown_name(map.insert(username, name), username) == name,
        shown_name(map.remove(username), username) == username,
        other != username ==> shown_name(map.insert(other, name), username) == shown_name(
            map,
            username,
        ),
        other != username ==> shown_name(map.remove(other), username) == shown_name(map, username),
        map.contains_key(username) ==> shown_name(map, username) == map[username],
        !map.contains_key(username) ==> shown_name(map, username) == username,
{
}

/// A contact read from its latest row is shown by the remark if it is not empty,
/// else by the nickname if it is not empty, else by the user name.
pub proof fn contacts_are_shown_by_remark_or_nickname(rows: Seq<Seq<SqlValue>>, i: int)
    requires
        0 <= i < rows.len(),
        text_at(rows[i], 0) is Some,
        forall|j: int|
            i < j < rows.len() ==> text_at(#[trigger] rows[j], 0) != text_at(rows[i], 0),
    ensures
        ({
            let username = text_at(rows[i], 0)->0;
            let nickname = text_or_empty(rows[i], 1);
            let remark = text_or_empty(rows[i], 2);
            let shown = shown_name(as_map(contact_pairs(rows)), username);
            &&& remark.len() > 0 ==> shown == remark
            &&& remark.len() == 0 && nickname.len() > 0 ==> shown == nickname
            &&& remark.len() == 0 && nickname.len() == 0 ==> shown == username
        }),
{
    contacts_are_read_by_column(rows[i]);
    let c = contact_in(rows[i])->0;
    assert forall|j: int| i < j < rows.len() implies (contact_in(#[trigger] rows[j]) matches Some(d)
        ==> d.username != c.username) by {
        contacts_are_read_by_column(rows[j]);
        assert(text_at(rows[j], 0) != text_at(rows[i], 0));
    }
    latest_row_names_contact(rows, i, c);
}

/// The user names that are listed are exactly those that some row holds.
pub proof fn listed_names_come_from_rows(rows: Seq<Seq<SqlValue>>, username: Seq<char>)
    ensures
        as_map(contact_pairs(rows)).contains_key(username) <==> exists|i: int|
            0 <= i < rows.len() && text_at(#[trigger] rows[i], 0) == Some(username),
    decreases rows.len(),
{
    if rows.len() == 0 {
        keys_are_those_of_pairs(contact_pairs(rows), username);
    } else {
        let rest = rows.drop_last();
        let last = rows.last();
        listed_names_come_from_rows(rest, username);
        contacts_are_listed_once(rest);
        contacts_are_read_by_column(last);
        assert(last == rows[rows.len() - 1]);
        if let Some(c) = contact_in(last) {
            lemma_with_pair(contact_pairs(rest), c.username, chosen_name(c));
        }
        if as_map(contact_pairs(rest)).contains_key(username) {
            let i = choose|i: int|
                0 <= i < rest.len() && text_at(#[trigger] rest[i], 0) == Some(username);
            assert(text_at(rows[i], 0) == Some(username));
        }
        if exists|i: int| 0 <= i < rows.len() && text_at(#[trigger] rows[i], 0) == Some(username) {
            let i = choose|i: int|
                0 <= i < rows.len() && text_at(#[trigger] rows[i], 0) == Some(username);
            if i < rest.len() {
                assert(text_at(rest[i], 0) == Some(username));
            }
        }
    }
}

/// The row that is reported as bad is the first without a user name.
pub proof fn first_row_without_user_name_is_bad(rows: Seq<Seq<SqlValue>>, i: int)
    ensures
        first_bad_contact(rows, i) <==> {
            &&& 0 <= i < rows.len()
            &&& text_at(rows[i], 0) is None
            &&& forall|j: int| 0 <= j < i ==> text_at(#[trigger] rows[j], 0) is Some
        },
{
    if 0 <= i < rows.len() {
        contacts_are_read_by_column(rows[i]);
        assert forall|j: int| 0 <= j < i implies (contact_in(#[trigger] rows[j]) is Some <==> text_at(
            rows[j],
            0,
        ) is Some) by {
            contacts_are_read_by_column(rows[j]);
        }
    }
}

/// The keys of pairs come in order.
pub proof fn keys_come_in_order(pairs: Seq<(Seq<char>, Seq<char>)>)
    ensures
        keys_of(pairs).len() == pairs.len(),
        forall|i: int| 0 <= i < pairs.len() ==> #[trigger] keys_of(pairs)[i] == pairs[i].0,
{
}

/// Text that is not empty is lowered as `str::to_lowercase` does it; empty text
/// stays empty.
pub proof fn lowering_is_that_of_the_text(s: Seq<char>)
    ensures
        s.len() > 0 ==> lowercase(s) == lowered(s),
        s.len() == 0 ==> lowercase(s).len() == 0,
{
}

/// A chat name is a user name by itself exactly if it is listed, or holds
/// `@chatroom`, or begins with `wxid_`.
pub proof fn user_names_are_told_by_form(map: Map<Seq<char>, Seq<char>>, text: Seq<char>)
    ensures
        is_username(map, text) <==> {
            ||| map.contains_key(text)
            ||| has_part(text, seq!['@', 'c', 'h', 'a', 't', 'r', 'o', 'o', 'm'])
            ||| begins_with(text, seq!['w', 'x', 'i', 'd', '_'])
        },
{
    reveal_strlit("@chatroom");
    reveal_strlit("wxid_");
    assert("@chatroom"@ =~= seq!['@', 'c', 'h', 'a', 't', 'r', 'o', 'o', 'm']);
    assert("wxid_"@ =~= seq!['w', 'x', 'i', 'd', '_']);
}

/// A name that is no user name by itself stands for a listed contact whose shown
/// name equals it in lower case, if there is one, or else holds it in lower
/// case, if there is one; and for no one else.
pub proof fn names_lead_to_contacts(pairs: Seq<(Seq<char>, Seq<char>)>, chat: Seq<char>)
    requires
        !is_username(as_map(pairs), chat),
    ensures
        match resolved(pairs, chat) {
            Some(username) => exists|i: int|
                {
                    &&& 0 <= i < pairs.len()
                    &&& (#[trigger] pairs[i]).0 == username
                    &&& lowercase(pairs[i].1) == lowercase(chat) || {
                        &&& has_part(lowercase(pairs[i].1), lowercase(chat))
                        &&& forall|j: int|
                            0 <= j < pairs.len() ==> lowercase((#[trigger] pairs[j]).1)
                                != lowercase(chat)
                    }
                },
            None => forall|i: int|
                0 <= i < pairs.len() ==> lowercase((#[trigger] pairs[i]).1) != lowercase(chat)
                    && !has_part(lowercase(pairs[i].1), lowercase(chat)),
        },
{
    names_stand_for_contacts(pairs, chat);
    match resolved(pairs, chat) {
        Some(username) => {
            if exists|j: int| 0 <= j < pairs.len() && named_exactly(#[trigger] pairs[j], chat) {
                let i = choose|i: int|
                    0 <= i < pairs.len() && (#[trigger] pairs[i]).0 == username && named_exactly(
                        pairs[i],
                        chat,
                    );
                assert(pairs[i].0 == username);
            } else {
                let i = choose|i: int|
                    0 <= i < pairs.len() && (#[trigger] pairs[i]).0 == username && named_in_part(
                        pairs[i],
                        chat,
                    );
                assert(pairs[i].0 == username);
                assert forall|j: int| 0 <= j < pairs.len() implies lowercase(
                    (#[trigger] pairs[j]).1,
                ) != lowercase(chat) by {
                    assert(!named_exactly(pairs[j], chat));
                }
            }
        },
        None => {
            assert forall|i: int| 0 <= i < pairs.len() implies lowercase((#[trigger] pairs[i]).1)
                != lowercase(chat) && !has_part(lowercase(pairs[i].1), lowercase(chat)) by {
                assert(!(named_exactly(pairs[i], chat) || named_in_part(pairs[i], chat)));
            }
        },
    }
}

/// A stored sender other than the chat itself is shown, in groups and in chats of
/// two, whatever the message says.
pub proof fn stored_sender_is_shown(
    sender: Seq<char>,
    content: Seq<char>,
    is_group: bool,
    chat: Seq<char>,
    map: Map<Seq<char>, Seq<char>>,
)
    requires
        sender.len() > 0,
        sender != chat,
    ensures
        sender_shown(sender, content, is_group, chat, map) == shown_name(map, sender),
{
}

/// In a group, a message without a stored sender and without the mark is shown
/// without a sender.
pub proof fn unmarked_message_has_no_sender(
    sender: Seq<char>,
    content: Seq<char>,
    chat: Seq<char>,
    map: Map<Seq<char>, Seq<char>>,
)
    requires
        sender.len() == 0 || sender == chat,
        !has_part(content, seq![':', '\n']),
    ensures
        sender_shown(sender, content, true, chat, map).len() == 0,
{
    reveal_strlit(":\n");
    assert(sender_mark() =~= seq![':', '\n']);
    cut_at_the_first_mark(content, sender_mark());
    lemma_find(content, sender_mark());
}

/// A sender id stands for the name entered for it last, or for none.
pub proof fn ids_stand_for_their_names(ids: Map<i64, Seq<char>>, id: i64, name: Seq<char>)
    ensures
        sender_of(ids.insert(id, name), id) == name,
        sender_of(ids.remove(id), id).len() == 0,
        ids.contains_key(id) ==> sender_of(ids, id) == ids[id],
        !ids.contains_key(id) ==> sender_of(ids, id).len() == 0,
{
}

/// The name picked for a text is the first that equals it; if none does, the
/// first that holds it; and none if none holds it.
pub proof fn picked_name_is_the_first(text: Seq<char>, names: Seq<Seq<char>>)
    ensures
        match picked(text, names) {
            Some(i) => {
                &&& 0 <= i < names.len()
                &&& forall|j: int| 0 <= j < i ==> #[trigger] names[j] != text
                &&& names[i] == text || {
                    &&& has_part(names[i], text)
                    &&& forall|j: int| 0 <= j < names.len() ==> #[trigger] names[j] != text
                    &&& forall|j: int| 0 <= j < i ==> !has_part(#[trigger] names[j], text)
                }
            },
            None => forall|j: int|
                0 <= j < names.len() ==> #[trigger] names[j] != text && !has_part(names[j], text),
        },
{
    match first_index(names, equal_to(text)) {
        Some(i) => {
            assert(leftmost(names, equal_to(text), i));
            assert forall|j: int| 0 <= j < i implies #[trigger] names[j] != text by {
                assert(!equal_to(text)(names[j]));
            }
        },
        None => {
            assert forall|j: int| 0 <= j < names.len() implies #[trigger] names[j] != text by {
                if names[j] == text {
                    lemma_some_index(names, equal_to(text), j);
                }
            }
            match first_index(names, holding(text)) {
                Some(i) => {
                    assert(leftmost(names, holding(text), i));
                    assert forall|j: int| 0 <= j < i implies !has_part(
                        #[trigger] names[j],
                        text,
                    ) by {
                        assert(!holding(text)(names[j]));
                    }
                },
                None => {
                    assert forall|j: int| 0 <= j < names.len() implies !has_part(
                        #[trigger] names[j],
                        text,
                    ) by {
                        if has_part(names[j], text) {
                            lemma_some_index(names, holding(text), j);
                        }
                    }
                },
            }
        },
    }
}

} // verus!
