//! Which servers each listening socket serves: one listener per distinct
//! (host, port), serving every server block that names it.
use vstd::prelude::*;
use crate::config::{servers_view, Config, ServerConfig, ServerView};
use crate::text::chars_eq;
use crate::text::chars_of;

verus! {

/// Each (host, port) a server listens on, with the server, in the order
/// of the configuration and of its `ports` directive.
pub open spec fn listen_pairs(servers: Seq<ServerView>) -> Seq<(Seq<char>, u16, ServerView)>
    decreases servers.len(),
{
    if servers.len() == 0 {
        Seq::empty()
    } else {
        let s = servers.last();
        listen_pairs(servers.drop_last()) + s.ports.map_values(|p: u16| (s.host, p, s))
    }
}

/// The position of the group for `key`, if there is one.
pub open spec fn group_index(groups: Seq<((Seq<char>, u16), Seq<ServerView>)>, key: (Seq<char>, u16)) -> Option<int> {
    if exists|k: int| 0 <= k < groups.len() && #[trigger] groups[k].0 == key {
        Some(choose|k: int| 0 <= k < groups.len() && #[trigger] groups[k].0 == key)
    } else {
        None
    }
}

/// The listen pairs grouped by (host, port): a new group for a new key, in
/// the order keys first appear; a known key gets the server appended.
pub open spec fn group_pairs(pairs: Seq<(Seq<char>, u16, ServerView)>) -> Seq<((Seq<char>, u16), Seq<ServerView>)>
    decreases pairs.len(),
{
    if pairs.len() == 0 {
        Seq::empty()
    } else {
        let g = group_pairs(pairs.drop_last());
        let (h, p, s) = pairs.last();
        match group_index(g, (h, p)) {
            Some(k) => g.update(k, (g[k].0, g[k].1.push(s))),
            None => g.push(((h, p), seq![s])),
        }
    }
}

/// The groups' keys are distinct.
pub open spec fn distinct_keys(groups: Seq<((Seq<char>, u16), Seq<ServerView>)>) -> bool {
    forall|i: int, j: int|
        0 <= i < groups.len() && 0 <= j < groups.len() && i != j ==> #[trigger] groups[i].0
            != #[trigger] groups[j].0
}

/// One listener's address and the servers it serves.
pub struct ListenerGroup {
    pub host: String,
    pub port: u16,
    pub servers: Vec<ServerConfig>,
}

/// The mathematical value of the groups.
pub open spec fn groups_view(v: Seq<ListenerGroup>) -> Seq<((Seq<char>, u16), Seq<ServerView>)> {
    Seq::new(v.len(), |i: int| ((v[i].host@, v[i].port), servers_view(v[i].servers@)))
}

proof fn lemma_group_index(groups: Seq<((Seq<char>, u16), Seq<ServerView>)>, key: (Seq<char>, u16), k: int)
    requires
        distinct_keys(groups),
        0 <= k < groups.len(),
        groups[k].0 == key,
    ensures
        group_index(groups, key) == Some(k),
{
}

/// Groups the servers of the configuration by the (host, port) they listen on.
pub fn group_servers(cfg: &Config) -> (r: Vec<ListenerGroup>)
    ensures
        groups_view(r@) == group_pairs(listen_pairs(servers_view(cfg.servers@))),
        distinct_keys(groups_view(r@)),
{
    let ghost sv = servers_view(cfg.servers@);
    let mut groups: Vec<ListenerGroup> = Vec::new();
    let mut i: usize = 0;
    assert(groups_view(groups@) =~= group_pairs(listen_pairs(sv.take(0))));
    while i < cfg.servers.len()
        invariant
            i <= cfg.servers.len(),
            sv == servers_view(cfg.servers@),
            groups_view(groups@) == group_pairs(listen_pairs(sv.take(i as int))),
            distinct_keys(groups_view(groups@)),
        decreases cfg.servers.len() - i,
    {
        let s = &cfg.servers[i];
        let host = chars_of(s.host.as_str());
        let ghost pre = listen_pairs(sv.take(i as int));
        let ghost mine = s@.ports.map_values(|p: u16| (s@.host, p, s@));
        assert(sv.take(i + 1).drop_last() =~= sv.take(i as int));
        assert(sv.take(i + 1).last() == s@);
        let mut j: usize = 0;
        assert(pre + mine.take(0) =~= pre);
        while j < s.ports.len()
            invariant
                j <= s.ports.len(),
                host@ == s@.host,
                mine == s@.ports.map_values(|p: u16| (s@.host, p, s@)),
                groups_view(groups@) == group_pairs(pre + mine.take(j as int)),
                distinct_keys(groups_view(groups@)),
            decreases s.ports.len() - j,
        {
            let port = s.ports[j];
            let ghost before = groups_view(groups@);
            assert((pre + mine.take(j + 1)).drop_last() =~= pre + mine.take(j as int));
            assert((pre + mine.take(j + 1)).last() == (s@.host, port, s@));
            let mut k: usize = 0;
            let mut found: Option<usize> = None;
            while k < groups.len()
                invariant
                    k <= groups.len(),
                    before == groups_view(groups@),
                    host@ == s@.host,
                    found is None ==> forall|m: int| 0 <= m < k ==> before[m].0 != (s@.host, port),
                    found matches Some(f) ==> f < groups.len() && before[f as int].0 == (
                        s@.host,
                        port,
                    ),
                decreases groups.len() - k,
            {
                if found.is_none() {
                    let gh = chars_of(groups[k].host.as_str());
                    if groups[k].port == port && chars_eq(gh.as_slice(), host.as_slice()) {
                        found = Some(k);
                    }
                }
                k = k + 1;
            }
            match found {
                Some(f) => {
                    proof {
                        lemma_group_index(before, (s@.host, port), f as int);
                    }
                    let mut g = groups.remove(f);
                    let ghost gs = servers_view(g.servers@);
                    g.servers.push(s.clone());
                    assert(servers_view(g.servers@) =~= gs.push(s@));
                    groups.insert(f, g);
                    assert(groups_view(groups@) =~= before.update(
                        f as int,
                        (before[f as int].0, before[f as int].1.push(s@)),
                    ));
                },
                None => {
                    assert(group_index(before, (s@.host, port)) is None);
                    let mut v: Vec<ServerConfig> = Vec::new();
                    v.push(s.clone());
                    assert(servers_view(v@) =~= seq![s@]);
                    groups.push(ListenerGroup { host: s.host.clone(), port, servers: v });
                    assert(groups_view(groups@) =~= before.push(((s@.host, port), seq![s@])));
                },
            }
            j = j + 1;
        }
        assert(mine.take(s.ports.len() as int) =~= mine);
        i = i + 1;
    }
    assert(sv.take(cfg.servers.len() as int) =~= sv);
    groups
}

} // verus!
