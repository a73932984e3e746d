//! What a search looks into: tables, grouped by the database that holds them.

use vstd::prelude::*;
use vstd::slice::slice_subrange;

use crate::name_map::as_map;
use crate::names::{
    hash_pairs, hashes_lead_back, resolve_username, resolved, shown_name, Names,
};
use crate::tables::{is_msg_table, is_table_name, name_hash, table_name};
use crate::text::{chars_of, same_text, string_of, texts};

verus! {

/// A table to search, and whose messages it holds.
pub struct SearchTarget {
    pub path: String,
    pub table: String,
    pub display: String,
    pub username: String,
}

/// The content of a target.
pub struct TargetView {
    pub path: Seq<char>,
    pub table: Seq<char>,
    pub display: Seq<char>,
    pub username: Seq<char>,
}

impl View for SearchTarget {
    type V = TargetView;

    open spec fn view(&self) -> TargetView {
        TargetView {
            path: self.path@,
            table: self.table@,
            display: self.display@,
            username: self.username@,
        }
    }
}

/// The content of targets.
pub open spec fn target_views(targets: Seq<SearchTarget>) -> Seq<TargetView> {
    targets.map_values(|t: SearchTarget| t@)
}

// ---------------------------------------------------------------------------
// Named chats

/// The user names that chat names stand for, in order. Names that stand for no
/// one are passed over.
pub open spec fn resolved_chats(
    pairs: Seq<(Seq<char>, Seq<char>)>,
    chats: Seq<Seq<char>>,
) -> Seq<Seq<char>>
    decreases chats.len(),
{
    if chats.len() == 0 {
        Seq::empty()
    } else {
        let rest = resolved_chats(pairs, chats.drop_last());
        match resolved(pairs, chats.last()) {
            Some(username) => rest.push(username),
            None => rest,
        }
    }
}

/// The user names that chat names stand for.
pub fn resolve_chats(names: &Names, chats: &Vec<String>) -> (usernames: Vec<String>)
    ensures
        texts(usernames@) == resolved_chats(names.map.pairs(), texts(chats@)),
{
    let ghost wanted = texts(chats@);
    let mut usernames: Vec<String> = Vec::new();
    assert(texts(usernames@) =~= resolved_chats(names.map.pairs(), wanted.take(0)));
    for i in 0..chats.len()
        invariant
            wanted == texts(chats@),
            texts(usernames@) == resolved_chats(names.map.pairs(), wanted.take(i as int)),
    {
        let ghost before = usernames@;
        assert(wanted.take(i + 1).drop_last() =~= wanted.take(i as int));
        if let Some(username) = resolve_username(chats[i].as_str(), names) {
            usernames.push(username);
            assert(texts(usernames@) =~= texts(before).push(username@));
        }
    }
    assert(wanted.take(chats@.len() as int) =~= wanted);
    usernames
}

/// The target for a table of a contact.
pub open spec fn chat_target(
    map: Map<Seq<char>, Seq<char>>,
    username: Seq<char>,
    path: Seq<char>,
    table: Seq<char>,
) -> TargetView {
    TargetView { path, table, display: shown_name(map, username), username }
}

/// The targets for the tables of a contact, each given by path and name.
pub fn chat_targets(names: &Names, username: &str, tables: &Vec<(String, String)>) -> (targets: Vec<
    SearchTarget,
>)
    ensures
        targets@.len() == tables@.len(),
        forall|i: int|
            0 <= i < tables@.len() ==> (#[trigger] targets@[i])@ == chat_target(
                names.map@,
                username@,
                tables@[i].0@,
                tables@[i].1@,
            ),
{
    let mut targets: Vec<SearchTarget> = Vec::new();
    for i in 0..tables.len()
        invariant
            targets@.len() == i,
            forall|j: int|
                0 <= j < i ==> (#[trigger] targets@[j])@ == chat_target(
                    names.map@,
                    username@,
                    tables@[j].0@,
                    tables@[j].1@,
                ),
    {
        targets.push(
            SearchTarget {
                path: tables[i].0.clone(),
                table: tables[i].1.clone(),
                display: names.display(username),
                username: username.to_owned(),
            },
        );
    }
    targets
}

// ---------------------------------------------------------------------------
// All chats

/// The contact whose messages a table holds, found by the hash in its name;
/// none if no contact has that hash.
pub open spec fn table_owner(hashes: Map<Seq<char>, Seq<char>>, table: Seq<char>) -> Seq<char> {
    let hash = table.skip(4);
    if hashes.contains_key(hash) {
        hashes[hash]
    } else {
        Seq::empty()
    }
}

/// The target for a table found in a database.
pub open spec fn found_target(
    map: Map<Seq<char>, Seq<char>>,
    hashes: Map<Seq<char>, Seq<char>>,
    path: Seq<char>,
    table: Seq<char>,
) -> TargetView {
    let username = table_owner(hashes, table);
    TargetView {
        path,
        table,
        display: if username.len() == 0 {
            Seq::empty()
        } else {
            shown_name(map, username)
        },
        username,
    }
}

/// The targets among the tables found in a database: the message tables.
pub open spec fn found_targets(
    map: Map<Seq<char>, Seq<char>>,
    hashes: Map<Seq<char>, Seq<char>>,
    path: Seq<char>,
    tables: Seq<Seq<char>>,
) -> Seq<TargetView>
    decreases tables.len(),
{
    if tables.len() == 0 {
        Seq::empty()
    } else {
        let rest = found_targets(map, hashes, path, tables.drop_last());
        if is_table_name(tables.last()) {
            rest.push(found_target(map, hashes, path, tables.last()))
        } else {
            rest
        }
    }
}

/// The targets among the tables found in a database.
pub fn table_targets(names: &Names, path: &str, tables: &Vec<String>) -> (targets: Vec<
    SearchTarget,
>)
    ensures
        target_views(targets@) == found_targets(
            names.map@,
            names.md5_to_uname@,
            path@,
            texts(tables@),
        ),
{
    let mut targets: Vec<SearchTarget> = Vec::new();
    assert(target_views(targets@) =~= found_targets(
        names.map@,
        names.md5_to_uname@,
        path@,
        texts(tables@).take(0),
    ));
    for i in 0..tables.len()
        invariant
            target_views(targets@) == found_targets(
                names.map@,
                names.md5_to_uname@,
                path@,
                texts(tables@).take(i as int),
            ),
    {
        assert(texts(tables@).take(i + 1).drop_last() =~= texts(tables@).take(i as int));
        let table = tables[i].as_str();
        if is_msg_table(table) {
            let chars = chars_of(table);
            let hash = string_of(slice_subrange(chars.as_slice(), 4, chars.len()));
            assert(hash@ =~= table@.skip(4));
            let username = match names.md5_to_uname.get(hash.as_str()) {
                Some(u) => u.clone(),
                None => String::new(),
            };
            let display = if username.as_str().is_empty() {
                String::new()
            } else {
                names.display(username.as_str())
            };
            let ghost before = targets@;
            let target = SearchTarget {
                path: path.to_owned(),
                table: table.to_owned(),
                display,
                username,
            };
            targets.push(target);
            assert(target_views(targets@) =~= target_views(before).push(target@));
        }
    }
    assert(texts(tables@).take(tables@.len() as int) =~= texts(tables@));
    targets
}

// ---------------------------------------------------------------------------
// Grouping

/// The targets in one database.
pub struct PathGroup {
    pub path: String,
    pub targets: Vec<SearchTarget>,
}

/// The paths of the targets, each once, in the order in which they first come.
pub open spec fn paths_in(targets: Seq<SearchTarget>) -> Seq<Seq<char>>
    decreases targets.len(),
{
    if targets.len() == 0 {
        Seq::empty()
    } else {
        let rest = paths_in(targets.drop_last());
        if rest.contains(targets.last().path@) {
            rest
        } else {
            rest.push(targets.last().path@)
        }
    }
}

/// The targets with a given path, in order.
pub open spec fn targets_at(targets: Seq<SearchTarget>, path: Seq<char>) -> Seq<SearchTarget> {
    targets.filter(|t: SearchTarget| t.path@ == path)
}

/// `groups` holds the targets grouped by path.
pub open spec fn grouped(targets: Seq<SearchTarget>, groups: Seq<PathGroup>) -> bool {
    &&& groups.map_values(|g: PathGroup| g.path@) == paths_in(targets)
    &&& forall|i: int|
        0 <= i < groups.len() ==> (#[trigger] groups[i]).targets@ == targets_at(
            targets,
            groups[i].path@,
        )
}

proof fn lemma_absent_path(targets: Seq<SearchTarget>, path: Seq<char>)
    requires
        !paths_in(targets).contains(path),
    ensures
        targets_at(targets, path) == Seq::<SearchTarget>::empty(),
    decreases targets.len(),
{
    reveal(Seq::filter);
    if targets.len() > 0 {
        let rest = paths_in(targets.drop_last());
        let last = targets.last().path@;
        assert(!rest.contains(path)) by {
            if rest.contains(path) {
                let k = choose|k: int| 0 <= k < rest.len() && rest[k] == path;
                assert(paths_in(targets)[k] == path);
            }
        }
        lemma_absent_path(targets.drop_last(), path);
        assert(last != path) by {
            if !rest.contains(last) {
                assert(rest.push(last)[rest.len() as int] == last);
            }
        }
    }
}

/// No path is listed twice.
pub proof fn paths_are_distinct(targets: Seq<SearchTarget>)
    ensures
        paths_in(targets).no_duplicates(),
    decreases targets.len(),
{
    if targets.len() > 0 {
        paths_are_distinct(targets.drop_last());
    }
}

/// Groups targets by path.
pub fn group_by_path(targets: Vec<SearchTarget>) -> (groups: Vec<PathGroup>)
    ensures
        grouped(targets@, groups@),
{
    let ghost all = targets@;
    let mut groups: Vec<PathGroup> = Vec::new();
    assert(groups@.map_values(|g: PathGroup| g.path@) =~= paths_in(all.take(0)));
    for target in it: targets
        invariant
            it.seq() == all,
            grouped(all.take(it.index() as int), groups@),
    {
        let ghost done = all.take(it.index() as int);
        let ghost next = all.take(it.index() + 1);
        let ghost old_groups = groups@;
        let ghost old_paths = old_groups.map_values(|g: PathGroup| g.path@);
        proof {
            reveal(Seq::filter);
            assert(next.drop_last() =~= done);
            assert(next.last() == target);
        }
        let n = groups.len();
        let mut at: usize = 0;
        while at < n && !same_text(groups[at].path.as_str(), target.path.as_str())
            invariant
                n == groups@.len(),
                at <= n,
                forall|j: int| 0 <= j < at ==> (#[trigger] groups@[j]).path@ != target.path@,
            decreases n - at,
        {
            at += 1;
        }
        let path = target.path.clone();
        if at < n {
            assert(old_paths[at as int] == path@);
            groups[at].targets.push(target);
            proof {
                paths_are_distinct(done);
                assert forall|i: int| 0 <= i < groups@.len() implies (#[trigger] groups@[i]).targets@
                    == targets_at(next, groups@[i].path@) by {
                    assert(old_groups[i].targets@ == targets_at(done, old_groups[i].path@));
                    assert(old_paths[i] == old_groups[i].path@);
                    if i != at {
                        assert(old_paths[i] != old_paths[at as int]);
                    }
                }
                assert(groups@.map_values(|g: PathGroup| g.path@) =~= old_paths);
            }
        } else {
            proof {
                assert(!old_paths.contains(path@)) by {
                    if old_paths.contains(path@) {
                        let k = choose|k: int| 0 <= k < old_paths.len() && old_paths[k] == path@;
                        assert(old_groups[k].path@ == path@);
                    }
                }
                lemma_absent_path(done, path@);
            }
            let mut first: Vec<SearchTarget> = Vec::new();
            first.push(target);
            groups.push(PathGroup { path, targets: first });
            proof {
                assert(groups@.map_values(|g: PathGroup| g.path@) =~= old_paths.push(path@));
                assert forall|i: int| 0 <= i < groups@.len() implies (#[trigger] groups@[i]).targets@
                    == targets_at(next, groups@[i].path@) by {
                    if i < old_groups.len() {
                        assert(old_groups[i].targets@ == targets_at(done, old_groups[i].path@));
                    } else {
                        assert(groups@[i].targets@ =~= targets_at(done, path@).push(target));
                    }
                }
            }
        }
    }
    assert(all.take(all.len() as int) =~= all);
    groups
}

// ---------------------------------------------------------------------------
// Laws

proof fn lemma_path_listed(targets: Seq<SearchTarget>, k: int)
    requires
        0 <= k < targets.len(),
    ensures
        paths_in(targets).contains(targets[k].path@),
    decreases targets.len(),
{
    let rest = paths_in(targets.drop_last());
    let last = targets.last().path@;
    if k < targets.len() - 1 {
        lemma_path_listed(targets.drop_last(), k);
        let j = choose|j: int| 0 <= j < rest.len() && rest[j] == targets[k].path@;
        assert(paths_in(targets)[j] == targets[k].path@);
    } else if !rest.contains(last) {
        assert(paths_in(targets)[rest.len() as int] == last);
    }
}

/// Grouping by path puts every target into a group, and into one only: that of
/// its own path.
pub proof fn every_target_has_its_group(
    targets: Seq<SearchTarget>,
    groups: Seq<PathGroup>,
    k: int,
)
    requires
        grouped(targets, groups),
        0 <= k < targets.len(),
    ensures
        exists|i: int|
            0 <= i < groups.len() && #[trigger] groups[i].targets@.contains(targets[k]),
        forall|i: int|
            0 <= i < groups.len() ==> (#[trigger] groups[i].targets@.contains(targets[k])
                <==> groups[i].path@ == targets[k].path@),
        forall|i: int, j: int|
            0 <= i < j < groups.len() ==> (#[trigger] groups[i]).path@ != (
            #[trigger] groups[j]).path@,
{
    let path = targets[k].path@;
    let paths = groups.map_values(|g: PathGroup| g.path@);
    lemma_path_listed(targets, k);
    paths_are_distinct(targets);
    let at = choose|j: int| 0 <= j < paths.len() && paths[j] == path;
    assert(groups[at].path@ == path);
    assert forall|i: int| 0 <= i < groups.len() implies (#[trigger] groups[i].targets@.contains(
        targets[k],
    ) <==> groups[i].path@ == path) by {
        let q = |t: SearchTarget| t.path@ == groups[i].path@;
        if groups[i].path@ == path {
            targets.lemma_filter_contains(q, k);
        }
        if groups[i].targets@.contains(targets[k]) {
            let j = choose|j: int|
                0 <= j < targets.filter(q).len() && targets.filter(q)[j] == targets[k];
            targets.lemma_filter_pred(q, j);
        }
    }
    assert(groups[at].targets@.contains(targets[k]));
    assert forall|i: int, j: int| 0 <= i < j < groups.len() implies (#[trigger] groups[i]).path@ != (
    #[trigger] groups[j]).path@ by {
        assert(paths[i] != paths[j]);
    }
}

/// The table of a known contact leads back to a contact with its hash, and to
/// the contact itself if no other contact has that hash.
pub proof fn tables_lead_back(usernames: Seq<Seq<char>>, username: Seq<char>)
    requires
        usernames.contains(username),
    ensures
        usernames.contains(table_owner(as_map(hash_pairs(usernames)), table_name(username))),
        name_hash(table_owner(as_map(hash_pairs(usernames)), table_name(username))) == name_hash(
            username,
        ),
        (forall|other: Seq<char>| #[trigger]
            usernames.contains(other) && name_hash(other) == name_hash(username) ==> other
                == username) ==> table_owner(
            as_map(hash_pairs(usernames)),
            table_name(username),
        ) == username,
{
    hashes_lead_back(usernames);
    reveal_strlit("Msg_");
    assert(table_name(username).skip(4) =~= name_hash(username));
    let i = choose|i: int| 0 <= i < usernames.len() && usernames[i] == username;
    assert(as_map(hash_pairs(usernames)).contains_key(name_hash(usernames[i])));
}

/// A chat name stands for someone.
pub open spec fn is_known(pairs: Seq<(Seq<char>, Seq<char>)>) -> spec_fn(Seq<char>) -> bool {
    |chat: Seq<char>| resolved(pairs, chat) is Some
}

/// Every chat name that stands for someone is searched, and no other: the user
/// names are as many as the names that stand for someone.
pub proof fn known_chats_are_searched(
    pairs: Seq<(Seq<char>, Seq<char>)>,
    chats: Seq<Seq<char>>,
)
    ensures
        forall|i: int|
            0 <= i < chats.len() ==> (resolved(pairs, #[trigger] chats[i]) matches Some(username)
                ==> resolved_chats(pairs, chats).contains(username)),
        resolved_chats(pairs, chats).len() == chats.filter(is_known(pairs)).len(),
        forall|i: int|
            0 <= i < chats.filter(is_known(pairs)).len() ==> Some(
                #[trigger] resolved_chats(pairs, chats)[i],
            ) == resolved(pairs, chats.filter(is_known(pairs))[i]),
    decreases chats.len(),
{
    reveal(Seq::filter);
    if chats.len() > 0 {
        let rest = chats.drop_last();
        known_chats_are_searched(pairs, rest);
        let some = resolved_chats(pairs, rest);
        let all = resolved_chats(pairs, chats);
        assert forall|i: int| 0 <= i < chats.len() implies (resolved(
            pairs,
            #[trigger] chats[i],
        ) matches Some(username) ==> all.contains(username)) by {
            if let Some(username) = resolved(pairs, chats[i]) {
                if i < rest.len() {
                    assert(rest[i] == chats[i]);
                    let k = choose|k: int| 0 <= k < some.len() && some[k] == username;
                    assert(all[k] == username);
                } else {
                    assert(all[some.len() as int] == username);
                }
            }
        }
    }
}

/// The chats named first are searched first.
pub proof fn chats_are_searched_in_order(
    pairs: Seq<(Seq<char>, Seq<char>)>,
    a: Seq<Seq<char>>,
    b: Seq<Seq<char>>,
)
    ensures
        resolved_chats(pairs, a + b) == resolved_chats(pairs, a) + resolved_chats(pairs, b),
    decreases b.len(),
{
    if b.len() == 0 {
        assert(a + b =~= a);
        assert(resolved_chats(pairs, a) + resolved_chats(pairs, b) =~= resolved_chats(pairs, a));
    } else {
        assert((a + b).drop_last() =~= a + b.drop_last());
        chats_are_searched_in_order(pairs, a, b.drop_last());
        assert(resolved_chats(pairs, a + b) =~= resolved_chats(pairs, a) + resolved_chats(
            pairs,
            b,
        ));
    }
}

/// A target for a table of a contact names the table where it lies, and the
/// contact, shown by its name.
pub proof fn chat_targets_name_the_contact(
    map: Map<Seq<char>, Seq<char>>,
    username: Seq<char>,
    path: Seq<char>,
    table: Seq<char>,
)
    ensures
        chat_target(map, username, path, table).path == path,
        chat_target(map, username, path, table).table == table,
        chat_target(map, username, path, table).username == username,
        chat_target(map, username, path, table).display == shown_name(map, username),
{
}

/// A table is owned by the contact entered for the hash after the first four
/// characters of its name, and by no one if there is no entry.
pub proof fn tables_are_owned_by_hash(
    hashes: Map<Seq<char>, Seq<char>>,
    prefix: Seq<char>,
    hash: Seq<char>,
    username: Seq<char>,
)
    requires
        prefix.len() == 4,
    ensures
        table_owner(hashes.insert(hash, username), prefix + hash) == username,
        table_owner(hashes.remove(hash), prefix + hash).len() == 0,
{
    assert((prefix + hash).skip(4) =~= hash);
}

/// A target found in a database names the table where it lies and its owner; the
/// owner is shown by its name, and a table without an owner has none to show.
pub proof fn found_targets_name_the_owner(
    map: Map<Seq<char>, Seq<char>>,
    hashes: Map<Seq<char>, Seq<char>>,
    path: Seq<char>,
    table: Seq<char>,
)
    ensures
        ({
            let target = found_target(map, hashes, path, table);
            &&& target.path == path
            &&& target.table == table
            &&& target.username == table_owner(hashes, table)
            &&& target.username.len() > 0 ==> target.display == shown_name(map, target.username)
            &&& target.username.len() == 0 ==> target.display.len() == 0
        }),
{
}

/// Names of message tables.
pub open spec fn message_tables() -> spec_fn(Seq<char>) -> bool {
    |table: Seq<char>| is_table_name(table)
}

/// Every message table of a database is searched, and nothing else, in the order
/// in which the tables were found.
pub proof fn message_tables_are_searched(
    map: Map<Seq<char>, Seq<char>>,
    hashes: Map<Seq<char>, Seq<char>>,
    path: Seq<char>,
    tables: Seq<Seq<char>>,
)
    ensures
        found_targets(map, hashes, path, tables).len() == tables.filter(message_tables()).len(),
        forall|i: int|
            0 <= i < tables.filter(message_tables()).len() ==> #[trigger] found_targets(
                map,
                hashes,
                path,
                tables,
            )[i] == found_target(map, hashes, path, tables.filter(message_tables())[i]),
    decreases tables.len(),
{
    reveal(Seq::filter);
    if tables.len() > 0 {
        message_tables_are_searched(map, hashes, path, tables.drop_last());
    }
}

/// Targets in the database at a path.
pub open spec fn lies_at(path: Seq<char>) -> spec_fn(SearchTarget) -> bool {
    |t: SearchTarget| t.path@ == path
}

proof fn lemma_targets_at(targets: Seq<SearchTarget>, path: Seq<char>)
    ensures
        targets_at(targets, path) == targets.filter(lies_at(path)),
    decreases targets.len(),
{
    reveal(Seq::filter);
    if targets.len() > 0 {
        lemma_targets_at(targets.drop_last(), path);
    }
}

/// A group holds the targets of its path, in the order in which they came, and
/// at least one.
pub proof fn groups_keep_the_order(
    targets: Seq<SearchTarget>,
    groups: Seq<PathGroup>,
    i: int,
)
    requires
        grouped(targets, groups),
        0 <= i < groups.len(),
    ensures
        groups[i].targets@ == targets.filter(lies_at(groups[i].path@)),
        groups[i].targets@.len() > 0,
{
    let path = groups[i].path@;
    let paths = groups.map_values(|g: PathGroup| g.path@);
    assert(paths[i] == path);
    lemma_listed_path(targets, path);
    let k = choose|k: int| 0 <= k < targets.len() && targets[k].path@ == path;
    targets.lemma_filter_contains(lies_at(path), k);
    lemma_targets_at(targets, path);
}

proof fn lemma_listed_path(targets: Seq<SearchTarget>, path: Seq<char>)
    requires
        paths_in(targets).contains(path),
    ensures
        exists|k: int| 0 <= k < targets.len() && (#[trigger] targets[k]).path@ == path,
    decreases targets.len(),
{
    if targets.len() > 0 {
        let rest = targets.drop_last();
        let paths = paths_in(targets);
        let j = choose|j: int| 0 <= j < paths.len() && paths[j] == path;
        if paths_in(rest).contains(path) {
            lemma_listed_path(rest, path);
            let k = choose|k: int| 0 <= k < rest.len() && (#[trigger] rest[k]).path@ == path;
            assert(targets[k].path@ == path);
        } else {
            if j < paths_in(rest).len() {
                assert(paths_in(rest)[j] == path);
            }
            assert(targets[targets.len() - 1].path@ == path);
        }
    }
}

/// The content of a target is what its fields hold.
pub proof fn target_views_hold_the_fields(t: SearchTarget, targets: Seq<SearchTarget>)
    ensures
        t@.path == t.path@ && t@.table == t.table@,
        t@.display == t.display@ && t@.username == t.username@,
        target_views(targets).len() == targets.len(),
        forall|i: int| 0 <= i < targets.len() ==> #[trigger] target_views(targets)[i] == targets[i]@,
{
}

} // verus!
