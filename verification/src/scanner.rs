//! A scan of the local network: which hosts to probe, what the answers add up
//! to, and the rows that come out.

use crate::arp;
use crate::arp::{reverse_dns, ArpTable};
use crate::device;
use crate::device::{copy_texts, Device};
use crate::dns::NameTable;
use crate::echo;
use crate::echo::guess_os;
use crate::numerals;
use crate::numerals::{push_decimal, read_number};
use crate::oui;
use crate::oui::{lookup, OuiRegistry};
use crate::probe;
use crate::probe::ProbeResult;
use crate::ssdp;
use crate::ssdp::Replies;
use crate::storage;
use crate::storage::copy_text;
use crate::text;
use crate::text::{chars_of, push_all, split_on, string_of};
use crate::unicode;
use vstd::prelude::*;

verus! {

/// How many hosts are probed at a time.
pub const CONCURRENCY: usize = 48;

/// The first three parts of an address of four parts.
pub open spec fn network_of(address: Seq<char>) -> Option<Seq<char>> {
    let parts = text::pieces(address, '.');
    if parts.len() == 4 {
        Some(parts[0] + seq!['.'] + parts[1] + seq!['.'] + parts[2])
    } else {
        None
    }
}

/// The subnet of a local address; a usual one where the address is none.
pub open spec fn subnet_of(local_ip: Seq<char>) -> Seq<char> {
    match network_of(local_ip) {
        Some(network) => network + ".0/24"@,
        None => "192.168.1.0/24"@,
    }
}

fn network(address: &[char]) -> (res: Option<Vec<char>>)
    ensures
        match res {
            Some(n) => network_of(address@) == Some(n@),
            None => network_of(address@) is None,
        },
{
    let parts = split_on(address, '.');
    let ghost views = text::views(parts@);
    if parts.len() != 4 {
        return None;
    }
    proof {
        assert(views[0] == parts@[0]@ && views[1] == parts@[1]@ && views[2] == parts@[2]@);
    }
    let mut out: Vec<char> = Vec::new();
    push_all(&mut out, parts[0]);
    out.push('.');
    push_all(&mut out, parts[1]);
    out.push('.');
    push_all(&mut out, parts[2]);
    assert(out@ =~= views[0] + seq!['.'] + views[1] + seq!['.'] + views[2]);
    Some(out)
}

/// Guesses the subnet from the local address.
pub fn detect_subnet(local_ip: &str) -> (res: String)
    ensures
        res@ == subnet_of(local_ip@),
{
    match network(&chars_of(local_ip)) {
        Some(n) => {
            let mut out = n;
            push_all(&mut out, &chars_of(".0/24"));
            string_of(&out)
        },
        None => "192.168.1.0/24".to_string(),
    }
}

/// What the addresses of a subnet have in common.
pub open spec fn prefix_of(subnet: Seq<char>) -> Seq<char> {
    match network_of(text::pieces(subnet, '/')[0]) {
        Some(network) => network,
        None => "192.168.1"@,
    }
}

/// What the addresses of a subnet have in common.
pub fn subnet_prefix(subnet: &str) -> (res: String)
    ensures
        res@ == prefix_of(subnet@),
{
    let chars = chars_of(subnet);
    let parts = split_on(&chars, '/');
    assert(text::views(parts@)[0] == parts@[0]@);
    match network(parts[0]) {
        Some(n) => string_of(&n),
        None => "192.168.1".to_string(),
    }
}

/// The address of a host in the subnet.
pub open spec fn host_of(prefix: Seq<char>, host: u32) -> Seq<char> {
    prefix + seq!['.'] + numerals::decimal(host as nat)
}

/// Writes the address of a host in the subnet.
pub fn host_ip(prefix: &str, host: u32) -> (res: String)
    ensures
        res@ == host_of(prefix@, host),
{
    let mut out = chars_of(prefix);
    out.push('.');
    push_decimal(&mut out, host as u64);
    assert(out@ =~= host_of(prefix@, host));
    string_of(&out)
}

/// How far a sweep over the hosts has come: the next host to probe, and how
/// many probes are under way.
pub struct Sweep {
    next: u32,
    active: usize,
}

/// How far a sweep has come.
pub struct SweepModel {
    pub next: int,
    pub active: int,
}

impl View for Sweep {
    type V = SweepModel;

    closed spec fn view(&self) -> SweepModel {
        SweepModel { next: self.next as int, active: self.active as int }
    }
}

/// A sweep that can be: its next host is one of the subnet's or past them, and
/// no more probes are under way than allowed, nor more than were begun.
pub open spec fn sweeping(s: SweepModel) -> bool {
    1 <= s.next <= 255 && 0 <= s.active <= CONCURRENCY && s.active <= s.next - 1
}

impl Sweep {
    #[verifier::type_invariant]
    spec fn wf(self) -> bool {
        sweeping(self@)
    }

    /// A sweep that has not begun.
    pub fn new() -> (res: Self)
        ensures
            res@ == (SweepModel { next: 1, active: 0 }),
            sweeping(res@),
    {
        Sweep { next: 1, active: 0 }
    }

    /// Begins the probe of one more host, if there is one and not too many are
    /// under way.
    pub fn launch(&mut self) -> (res: Option<u32>)
        ensures
            sweeping(final(self)@),
            if can_launch(old(self)@) {
                &&& res matches Some(host) && host == old(self)@.next
                &&& final(self)@ == (SweepModel {
                    next: old(self)@.next + 1,
                    active: old(self)@.active + 1,
                })
            } else {
                res is None && final(self)@ == old(self)@
            },
    {
        proof {
            use_type_invariant(&*self);
        }
        if self.active < CONCURRENCY && self.next < 255 {
            let host = self.next;
            self.next = self.next + 1;
            self.active = self.active + 1;
            Some(host)
        } else {
            None
        }
    }

    /// Takes in that a probe has ended.
    pub fn landed(&mut self)
        requires
            old(self)@.active > 0,
        ensures
            sweeping(final(self)@),
            final(self)@ == (SweepModel { next: old(self)@.next, active: old(self)@.active - 1 }),
    {
        proof {
            use_type_invariant(&*self);
        }
        self.active = self.active - 1;
    }

    /// Whether no probe is under way.
    pub fn is_idle(&self) -> (res: bool)
        ensures
            res == (self@.active == 0),
    {
        self.active == 0
    }
}

/// What can befall a sweep: a host is asked for, or a probe ends.
pub enum SweepEvent {
    Launch,
    Land,
}

/// Whether a sweep hands out one more host.
pub open spec fn can_launch(s: SweepModel) -> bool {
    s.active < CONCURRENCY && s.next < 255
}

/// The sweep after some events.
pub open spec fn swept(events: Seq<SweepEvent>) -> SweepModel
    decreases events.len(),
{
    if events.len() == 0 {
        SweepModel { next: 1, active: 0 }
    } else {
        let s = swept(events.drop_last());
        match events.last() {
            SweepEvent::Launch => if can_launch(s) {
                SweepModel { next: s.next + 1, active: s.active + 1 }
            } else {
                s
            },
            SweepEvent::Land => if s.active > 0 {
                SweepModel { next: s.next, active: s.active - 1 }
            } else {
                s
            },
        }
    }
}

/// The hosts that were handed out in the course of some events.
pub open spec fn handed_out(events: Seq<SweepEvent>) -> Seq<int>
    decreases events.len(),
{
    if events.len() == 0 {
        Seq::<int>::empty()
    } else {
        let s = swept(events.drop_last());
        let before = handed_out(events.drop_last());
        if events.last() is Launch && can_launch(s) {
            before.push(s.next)
        } else {
            before
        }
    }
}

/// Whatever happens in a sweep, hosts are handed out in order from 1, none
/// twice and none beyond 254, and never more than the limit are under way. A
/// sweep that has nothing under way and hands out no more has handed out all.
pub proof fn law_every_host_once(events: Seq<SweepEvent>)
    ensures
        sweeping(swept(events)),
        handed_out(events) == Seq::new((swept(events).next - 1) as nat, |i: int| i + 1),
        handed_out(events).len() <= 254,
        swept(events).active == 0 && !can_launch(swept(events)) ==> handed_out(events).len() == 254,
    decreases events.len(),
{
    if events.len() > 0 {
        law_every_host_once(events.drop_last());
    }
    assert(handed_out(events) =~= Seq::new((swept(events).next - 1) as nat, |i: int| i + 1));
}

/// Where `ip` stands among the hosts.
pub open spec fn place_of(hosts: Seq<probe::HostModel>, ip: Seq<char>) -> Option<int>
    decreases hosts.len(),
{
    if hosts.len() == 0 {
        None
    } else {
        match place_of(hosts.drop_last(), ip) {
            Some(i) => Some(i),
            None => if hosts.last().ip == ip {
                Some(hosts.len() - 1)
            } else {
                None
            },
        }
    }
}

/// A place found is the first with that address.
pub proof fn lemma_place_of(hosts: Seq<probe::HostModel>, ip: Seq<char>)
    ensures
        match place_of(hosts, ip) {
            Some(i) => 0 <= i < hosts.len() && hosts[i].ip == ip && forall|j: int|
                0 <= j < i ==> (#[trigger] hosts[j]).ip != ip,
            None => forall|j: int| 0 <= j < hosts.len() ==> (#[trigger] hosts[j]).ip != ip,
        },
    decreases hosts.len(),
{
    if hosts.len() > 0 {
        lemma_place_of(hosts.drop_last(), ip);
        assert forall|j: int| 0 <= j < hosts.len() - 1 implies hosts.drop_last()[j]
            == #[trigger] hosts[j] by {}
    }
}

proof fn lemma_place_unique(hosts: Seq<probe::HostModel>, ip: Seq<char>, i: int)
    requires
        0 <= i < hosts.len(),
        hosts[i].ip == ip,
        forall|j: int| 0 <= j < i ==> (#[trigger] hosts[j]).ip != ip,
    ensures
        place_of(hosts, ip) == Some(i),
{
    lemma_place_of(hosts, ip);
    match place_of(hosts, ip) {
        Some(k) => {
            assert(hosts[k].ip == ip);
            if k < i {
                assert(hosts[k].ip != ip);
            }
            if i < k {
                assert(hosts[i].ip != ip);
            }
        },
        None => {
            assert(hosts[i].ip != ip);
        },
    }
}

/// No address stands twice among the hosts.
pub open spec fn found_once(hosts: Seq<probe::HostModel>) -> bool {
    forall|i: int, j: int|
        0 <= i < j < hosts.len() ==> (#[trigger] hosts[i]).ip != (#[trigger] hosts[j]).ip
}

/// The hosts with `host` entered in the place of one with its address, or else
/// at the end.
pub open spec fn with_host(hosts: Seq<probe::HostModel>, host: probe::HostModel) -> Seq<
    probe::HostModel,
> {
    match place_of(hosts, host.ip) {
        Some(i) => hosts.update(i, host),
        None => hosts.push(host),
    }
}

/// A host of which nothing is known but its address.
pub open spec fn unknown_host(ip: Seq<char>) -> probe::HostModel {
    probe::HostModel {
        ip,
        open_ports: Seq::<u16>::empty(),
        title: None,
        sources: Seq::<Seq<char>>::empty(),
        mac: None,
        hostname: None,
        ttl: None,
        rtt_ms: None,
    }
}

/// What is known of the host `ip`.
pub open spec fn host_or_unknown(hosts: Seq<probe::HostModel>, ip: Seq<char>) -> probe::HostModel {
    match place_of(hosts, ip) {
        Some(i) => hosts[i],
        None => unknown_host(ip),
    }
}

/// Sources with one more, unless it is there already.
pub open spec fn with_source(sources: Seq<Seq<char>>, source: Seq<char>) -> Seq<Seq<char>> {
    if sources.contains(source) {
        sources
    } else {
        sources.push(source)
    }
}

/// A host that answered an echo: it shows the time to live and the round trip
/// of the answer. One that nothing else had found was found by the echo.
pub open spec fn echo_heard(host: probe::HostModel, ttl: u8, rtt_ms: u32) -> probe::HostModel {
    probe::HostModel {
        ttl: Some(ttl),
        rtt_ms: Some(rtt_ms),
        sources: if host.sources.len() == 0 {
            seq!["icmp"@]
        } else {
            host.sources
        },
        ..host
    }
}

/// The hosts after `ip` answered an echo.
pub open spec fn after_echo(
    hosts: Seq<probe::HostModel>,
    ip: Seq<char>,
    ttl: u8,
    rtt_ms: u32,
) -> Seq<probe::HostModel> {
    with_host(hosts, echo_heard(host_or_unknown(hosts, ip), ttl, rtt_ms))
}

/// A host that answered a multicast DNS query.
pub open spec fn mdns_heard(host: probe::HostModel) -> probe::HostModel {
    probe::HostModel { sources: with_source(host.sources, "mdns"@), ..host }
}

/// A host that answered a service search: the software it told fills in for a
/// missing title, and the address it told goes before one that was known.
pub open spec fn ssdp_heard(host: probe::HostModel, facts: ssdp::FactsModel) -> probe::HostModel {
    probe::HostModel {
        sources: with_source(host.sources, "ssdp"@),
        title: if host.title is None {
            facts.server
        } else {
            host.title
        },
        mac: if facts.mac is Some {
            facts.mac
        } else {
            host.mac
        },
        ..host
    }
}

/// A host with the name that it answered, if it did.
pub open spec fn name_heard(host: probe::HostModel, names: Map<Seq<char>, Seq<char>>) -> probe::HostModel {
    if names.contains_key(host.ip) {
        probe::HostModel {
            hostname: Some(names[host.ip]),
            sources: with_source(host.sources, "mdns"@),
            ..host
        }
    } else {
        host
    }
}

/// The hosts after some answered a multicast DNS query.
pub open spec fn after_mdns(hosts: Seq<probe::HostModel>, ips: Seq<Seq<char>>) -> Seq<
    probe::HostModel,
>
    decreases ips.len(),
{
    if ips.len() == 0 {
        hosts
    } else {
        let before = after_mdns(hosts, ips.drop_last());
        with_host(before, mdns_heard(host_or_unknown(before, ips.last())))
    }
}

/// The hosts after some answered a service search.
pub open spec fn after_ssdp(
    hosts: Seq<probe::HostModel>,
    heard: Seq<(Seq<char>, ssdp::FactsModel)>,
) -> Seq<probe::HostModel>
    decreases heard.len(),
{
    if heard.len() == 0 {
        hosts
    } else {
        let before = after_ssdp(hosts, heard.drop_last());
        with_host(
            before,
            ssdp_heard(host_or_unknown(before, heard.last().0), heard.last().1),
        )
    }
}

/// The addresses of the hosts without a name.
pub open spec fn nameless(hosts: Seq<probe::HostModel>) -> Seq<Seq<char>>
    decreases hosts.len(),
{
    if hosts.len() == 0 {
        Seq::<Seq<char>>::empty()
    } else if hosts.last().hostname is None {
        nameless(hosts.drop_last()).push(hosts.last().ip)
    } else {
        nameless(hosts.drop_last())
    }
}

/// The hosts that a scan found.
pub struct AliveHosts {
    hosts: Vec<ProbeResult>,
}

impl View for AliveHosts {
    type V = Seq<probe::HostModel>;

    closed spec fn view(&self) -> Seq<probe::HostModel> {
        self.hosts@.map_values(|h: ProbeResult| h@)
    }
}

fn copy_ports(v: &Vec<u16>) -> (res: Vec<u16>)
    ensures
        res@ == v@,
{
    let mut out: Vec<u16> = Vec::new();
    push_all(&mut out, v);
    assert(out@ =~= v@);
    out
}

fn copy_host(h: &ProbeResult) -> (res: ProbeResult)
    ensures
        res@ == h@,
{
    ProbeResult {
        ip: h.ip.clone(),
        open_ports: copy_ports(&h.open_ports),
        title: copy_text(&h.title),
        sources: copy_texts(&h.sources),
        mac: copy_text(&h.mac),
        hostname: copy_text(&h.hostname),
        ttl: h.ttl,
        rtt_ms: h.rtt_ms,
    }
}

fn add_source(sources: &mut Vec<String>, source: &str)
    ensures
        device::texts_of(final(sources)@) == with_source(
            device::texts_of(old(sources)@),
            source@,
        ),
{
    let ghost before = device::texts_of(sources@);
    let wanted = source.to_string();
    let mut i: usize = 0;
    while i < sources.len()
        invariant
            i <= sources@.len(),
            before == device::texts_of(sources@),
            *sources == *old(sources),
            wanted@ == source@,
            forall|j: int| 0 <= j < i ==> #[trigger] before[j] != source@,
        decreases sources@.len() - i,
    {
        assert(before[i as int] == sources@[i as int]@);
        if sources[i] == wanted {
            assert(before.contains(source@));
            return ;
        }
        i = i + 1;
    }
    assert(!before.contains(source@));
    sources.push(wanted);
    assert(device::texts_of(sources@) =~= before.push(source@));
}

impl AliveHosts {
    /// No hosts yet.
    pub fn new() -> (res: Self)
        ensures
            res@ == Seq::<probe::HostModel>::empty(),
    {
        let res = AliveHosts { hosts: Vec::new() };
        assert(res@ =~= Seq::<probe::HostModel>::empty());
        res
    }

    fn find(&self, ip: &String) -> (res: Option<usize>)
        ensures
            match res {
                Some(i) => place_of(self@, ip@) == Some(i as int) && i < self.hosts@.len(),
                None => place_of(self@, ip@) is None,
            },
    {
        let mut i: usize = 0;
        while i < self.hosts.len()
            invariant
                i <= self.hosts@.len(),
                forall|j: int| 0 <= j < i ==> (#[trigger] self@[j]).ip != ip@,
            decreases self.hosts@.len() - i,
        {
            assert(self@[i as int] == self.hosts@[i as int]@);
            if self.hosts[i].ip == *ip {
                proof {
                    lemma_place_unique(self@, ip@, i as int);
                }
                return Some(i);
            }
            i = i + 1;
        }
        proof {
            lemma_place_of(self@, ip@);
        }
        None
    }

    /// Enters a host.
    pub fn enter(&mut self, host: ProbeResult)
        ensures
            final(self)@ == with_host(old(self)@, host@),
    {
        let ghost before = self@;
        match self.find(&host.ip) {
            Some(i) => {
                self.hosts[i] = host;
                assert(self@ =~= with_host(before, host@));
            },
            None => {
                self.hosts.push(host);
                assert(self@ =~= with_host(before, host@));
            },
        }
    }

    fn known(&self, ip: &String) -> (res: ProbeResult)
        ensures
            res@ == host_or_unknown(self@, ip@),
    {
        match self.find(ip) {
            Some(i) => {
                assert(self@[i as int] == self.hosts@[i as int]@);
                copy_host(&self.hosts[i])
            },
            None => {
                let res = ProbeResult {
                    ip: ip.clone(),
                    open_ports: Vec::new(),
                    title: None,
                    sources: Vec::new(),
                    mac: None,
                    hostname: None,
                    ttl: None,
                    rtt_ms: None,
                };
                assert(res@ =~= unknown_host(ip@));
                res
            },
        }
    }

    /// Takes in that `ip` answered an echo, with the time to live and the round
    /// trip of the answer.
    pub fn note_echo(&mut self, ip: &str, ttl: u8, rtt_ms: u32)
        ensures
            final(self)@ == after_echo(old(self)@, ip@, ttl, rtt_ms),
    {
        let mut host = self.known(&ip.to_string());
        let ghost known = host@;
        host.ttl = Some(ttl);
        host.rtt_ms = Some(rtt_ms);
        if host.sources.len() == 0 {
            host.sources.push("icmp".to_string());
        }
        assert(host@ =~= echo_heard(known, ttl, rtt_ms));
        self.enter(host);
    }

    /// Takes in the hosts that answered a multicast DNS query.
    pub fn note_mdns(&mut self, ips: &Vec<String>)
        ensures
            final(self)@ == after_mdns(old(self)@, device::texts_of(ips@)),
    {
        let ghost before = self@;
        let ghost all = device::texts_of(ips@);
        let mut i: usize = 0;
        assert(all.take(0).len() == 0);
        while i < ips.len()
            invariant
                i <= ips@.len(),
                all == device::texts_of(ips@),
                self@ == after_mdns(before, all.take(i as int)),
            decreases ips@.len() - i,
        {
            proof {
                assert(all[i as int] == ips@[i as int]@);
                assert(all.take(i + 1).drop_last() =~= all.take(i as int));
            }
            let mut host = self.known(&ips[i]);
            let ghost known = host@;
            add_source(&mut host.sources, "mdns");
            assert(host@ =~= mdns_heard(known));
            self.enter(host);
            i = i + 1;
        }
        assert(all.take(i as int) =~= all);
    }

    /// Takes in the hosts that answered a service search, with what they told.
    pub fn note_ssdp(&mut self, replies: &Replies)
        ensures
            final(self)@ == after_ssdp(old(self)@, replies@),
    {
        let ghost before = self@;
        let ghost all = replies@;
        let mut i: usize = 0;
        assert(all.take(0).len() == 0);
        while i < replies.heard.len()
            invariant
                i <= replies.heard@.len(),
                all == replies@,
                self@ == after_ssdp(before, all.take(i as int)),
            decreases replies.heard@.len() - i,
        {
            let facts = &replies.heard[i].1;
            proof {
                assert(all[i as int] == (replies.heard@[i as int].0@, facts@));
                assert(all.take(i + 1).drop_last() =~= all.take(i as int));
            }
            let mut host = self.known(&replies.heard[i].0);
            let ghost known = host@;
            add_source(&mut host.sources, "ssdp");
            if host.title.is_none() {
                host.title = copy_text(&facts.server);
            }
            if facts.mac.is_some() {
                host.mac = copy_text(&facts.mac);
            }
            assert(host@ =~= ssdp_heard(known, facts@));
            self.enter(host);
            i = i + 1;
        }
        assert(all.take(i as int) =~= all);
    }

    /// The addresses of the hosts without a name.
    pub fn nameless_ips(&self) -> (res: Vec<String>)
        ensures
            device::texts_of(res@) == nameless(self@),
    {
        let mut out: Vec<String> = Vec::new();
        let mut i: usize = 0;
        assert(self@.take(0).len() == 0);
        assert(device::texts_of(out@) =~= Seq::<Seq<char>>::empty());
        while i < self.hosts.len()
            invariant
                i <= self.hosts@.len(),
                device::texts_of(out@) == nameless(self@.take(i as int)),
            decreases self.hosts@.len() - i,
        {
            let ghost before = out@;
            proof {
                assert(self@[i as int] == self.hosts@[i as int]@);
                assert(self@.take(i + 1).drop_last() =~= self@.take(i as int));
            }
            if self.hosts[i].hostname.is_none() {
                out.push(self.hosts[i].ip.clone());
                assert(device::texts_of(out@) =~= device::texts_of(before).push(
                    self@[i as int].ip,
                ));
            }
            i = i + 1;
        }
        assert(self@.take(i as int) =~= self@);
        out
    }

    /// Takes in the names that hosts answered.
    pub fn note_names(&mut self, names: &NameTable)
        ensures
            final(self)@ == old(self)@.map_values(|h: probe::HostModel| name_heard(h, names@)),
    {
        let ghost before = self@;
        let mut i: usize = 0;
        while i < self.hosts.len()
            invariant
                i <= self.hosts@.len(),
                self@.len() == before.len(),
                forall|j: int| 0 <= j < i ==> #[trigger] self@[j] == name_heard(before[j], names@),
                forall|j: int| i <= j < before.len() ==> #[trigger] self@[j] == before[j],
            decreases self.hosts@.len() - i,
        {
            let ghost now = self@;
            assert(self@[i as int] == self.hosts@[i as int]@);
            match names.get(self.hosts[i].ip.as_str()) {
                Some(name) => {
                    let mut host = copy_host(&self.hosts[i]);
                    let ghost known = host@;
                    host.hostname = Some(name);
                    add_source(&mut host.sources, "mdns");
                    assert(host@ =~= name_heard(known, names@));
                    self.hosts[i] = host;
                    assert(self@ =~= now.update(i as int, name_heard(known, names@)));
                },
                None => {},
            }
            i = i + 1;
        }
        assert(self@ =~= before.map_values(|h: probe::HostModel| name_heard(h, names@)));
    }
}

/// By what rows are ordered: the last part of the address.
pub open spec fn sort_key(ip: Seq<char>) -> int {
    match numerals::number_in(text::pieces(ip, '.').last()) {
        Some(n) => n,
        None => 0,
    }
}

/// By what rows are ordered: the last part of the address.
pub fn ip_sort_key(ip: &str) -> (res: u32)
    ensures
        res == sort_key(ip@),
{
    let chars = chars_of(ip);
    let parts = split_on(&chars, '.');
    let last = parts[parts.len() - 1];
    assert(text::views(parts@).last() == last@);
    match read_number(last) {
        Some(n) => n,
        None => 0,
    }
}

/// A row of a scan.
#[derive(Clone, Debug)]
pub struct ScanResult {
    pub ip: String,
    pub mac: Option<String>,
    pub vendor: Option<String>,
    pub hostname: Option<String>,
    pub title: Option<String>,
    pub open_ports: Vec<u16>,
    pub rtt_ms: Option<u32>,
    pub ttl: Option<u8>,
    pub os_guess: Option<String>,
    pub sources: Vec<String>,
    pub last_seen: String,
}

/// What a row of a scan holds.
#[verifier::ext_equal]
pub struct ScanModel {
    pub ip: Seq<char>,
    pub mac: Option<Seq<char>>,
    pub vendor: Option<Seq<char>>,
    pub hostname: Option<Seq<char>>,
    pub title: Option<Seq<char>>,
    pub open_ports: Seq<u16>,
    pub rtt_ms: Option<u32>,
    pub ttl: Option<u8>,
    pub os_guess: Option<Seq<char>>,
    pub sources: Seq<Seq<char>>,
    pub last_seen: Seq<char>,
}

impl View for ScanResult {
    type V = ScanModel;

    open spec fn view(&self) -> ScanModel {
        ScanModel {
            ip: self.ip@,
            mac: storage::text_of(self.mac),
            vendor: storage::text_of(self.vendor),
            hostname: storage::text_of(self.hostname),
            title: storage::text_of(self.title),
            open_ports: self.open_ports@,
            rtt_ms: self.rtt_ms,
            ttl: self.ttl,
            os_guess: storage::text_of(self.os_guess),
            sources: device::texts_of(self.sources@),
            last_seen: self.last_seen@,
        }
    }
}

/// The hardware address of a host: the one the operating system knows, or else
/// the one the host told.
pub open spec fn best_mac(host: probe::HostModel, macs: Map<Seq<char>, Seq<char>>) -> Option<
    Seq<char>,
> {
    if macs.contains_key(host.ip) {
        Some(macs[host.ip])
    } else {
        host.mac
    }
}

/// The name of a host: the one it told, or else the one in the output of a
/// reverse lookup.
pub open spec fn best_name(host: probe::HostModel, lookup: Option<Seq<u8>>) -> Option<Seq<char>> {
    match host.hostname {
        Some(name) => Some(name),
        None => match lookup {
            Some(output) => arp::name_from(
                text::line_seq(unicode::lossy_text(output)),
                host.ip,
                0,
            ),
            None => None,
        },
    }
}

/// The row of a host.
pub open spec fn row_of(
    host: probe::HostModel,
    macs: Map<Seq<char>, Seq<char>>,
    registry: OuiRegistry,
    lookup: Option<Seq<u8>>,
    now: Seq<char>,
) -> ScanModel {
    let vendor = match best_mac(host, macs) {
        Some(mac) => oui::maker(registry, mac),
        None => None,
    };
    ScanModel {
        ip: host.ip,
        mac: best_mac(host, macs),
        vendor,
        hostname: best_name(host, lookup),
        title: host.title,
        open_ports: host.open_ports,
        rtt_ms: host.rtt_ms,
        ttl: host.ttl,
        os_guess: echo::os_of(host.ttl, host.open_ports, vendor),
        sources: host.sources,
        last_seen: now,
    }
}

/// What an optional byte string holds.
pub open spec fn output_of(o: Option<Vec<u8>>) -> Option<Seq<u8>> {
    match o {
        Some(bytes) => Some(bytes@),
        None => None,
    }
}

/// The rows of the hosts, in the order of the hosts.
pub open spec fn rows_of(
    hosts: Seq<probe::HostModel>,
    macs: Map<Seq<char>, Seq<char>>,
    registry: OuiRegistry,
    lookups: Seq<Option<Vec<u8>>>,
    now: Seq<char>,
) -> Seq<ScanModel> {
    Seq::new(
        hosts.len(),
        |i: int| row_of(hosts[i], macs, registry, output_of(lookups[i]), now),
    )
}

/// The rows with the given key, in order.
pub open spec fn with_key(rows: Seq<ScanModel>, key: int) -> Seq<ScanModel>
    decreases rows.len(),
{
    if rows.len() == 0 {
        rows
    } else if sort_key(rows.last().ip) == key {
        with_key(rows.drop_last(), key).push(rows.last())
    } else {
        with_key(rows.drop_last(), key)
    }
}

/// Whether rows stand in the order of their keys.
pub open spec fn in_order(rows: Seq<ScanModel>) -> bool {
    forall|i: int, j: int|
        0 <= i < j < rows.len() ==> sort_key((#[trigger] rows[i]).ip) <= sort_key(
            (#[trigger] rows[j]).ip,
        )
}

/// Whether `sorted` holds the rows in the order of their keys, those with the
/// same key in the order they had.
pub open spec fn is_sorting(rows: Seq<ScanModel>, sorted: Seq<ScanModel>) -> bool {
    &&& sorted.len() == rows.len()
    &&& in_order(sorted)
    &&& forall|key: int| #[trigger] with_key(sorted, key) == with_key(rows, key)
}

/// What each row holds.
pub open spec fn views(rows: Seq<ScanResult>) -> Seq<ScanModel> {
    rows.map_values(|r: ScanResult| r@)
}

proof fn lemma_with_key_concat(a: Seq<ScanModel>, b: Seq<ScanModel>, key: int)
    ensures
        with_key(a + b, key) == with_key(a, key) + with_key(b, key),
    decreases b.len(),
{
    if b.len() == 0 {
        assert(a + b =~= a);
    } else {
        lemma_with_key_concat(a, b.drop_last(), key);
        assert((a + b).drop_last() =~= a + b.drop_last());
        assert((a + b).last() == b.last());
    }
    assert(with_key(a + b, key) =~= with_key(a, key) + with_key(b, key));
}

proof fn lemma_no_such_key(rows: Seq<ScanModel>, key: int)
    requires
        forall|i: int| 0 <= i < rows.len() ==> sort_key((#[trigger] rows[i]).ip) != key,
    ensures
        with_key(rows, key).len() == 0,
    decreases rows.len(),
{
    if rows.len() > 0 {
        assert(sort_key(rows[rows.len() - 1].ip) != key);
        lemma_no_such_key(rows.drop_last(), key);
    }
}

/// Putting a row behind those with keys no greater than its own keeps a
/// sorting one.
proof fn lemma_insert_row(rows: Seq<ScanModel>, sorted: Seq<ScanModel>, row: ScanModel, at: int)
    requires
        is_sorting(rows, sorted),
        0 <= at <= sorted.len(),
        forall|i: int|
            0 <= i < at ==> sort_key((#[trigger] sorted[i]).ip) <= sort_key(row.ip),
        forall|i: int|
            at <= i < sorted.len() ==> sort_key((#[trigger] sorted[i]).ip) > sort_key(row.ip),
    ensures
        is_sorting(rows.push(row), sorted.insert(at, row)),
{
    let a = sorted.take(at);
    let b = sorted.skip(at);
    let after = sorted.insert(at, row);
    assert(after =~= a + seq![row] + b);
    assert(sorted =~= a + b);
    assert forall|key: int| #[trigger] with_key(after, key) == with_key(rows.push(row), key) by {
        lemma_with_key_concat(a + seq![row], b, key);
        lemma_with_key_concat(a, seq![row], key);
        lemma_with_key_concat(a, b, key);
        assert(rows.push(row).drop_last() =~= rows);
        assert(with_key(sorted, key) == with_key(rows, key));
        reveal_with_fuel(with_key, 2);
        if sort_key(row.ip) == key {
            lemma_no_such_key(b, key);
            assert(with_key(b, key) =~= Seq::<ScanModel>::empty());
            assert(with_key(seq![row], key) =~= seq![row]);
            assert(with_key(after, key) =~= with_key(rows, key).push(row));
        } else {
            assert(with_key(seq![row], key) =~= Seq::<ScanModel>::empty());
            assert(with_key(after, key) =~= with_key(rows, key));
        }
    }
    assert forall|i: int, j: int| 0 <= i < j < after.len() implies sort_key(
        (#[trigger] after[i]).ip,
    ) <= sort_key((#[trigger] after[j]).ip) by {
        if i < at && j > at {
            assert(after[i] == sorted[i] && after[j] == sorted[j - 1]);
        } else if i < at && j < at {
            assert(after[i] == sorted[i] && after[j] == sorted[j]);
        } else if i > at {
            assert(after[i] == sorted[i - 1] && after[j] == sorted[j - 1]);
        } else if i == at {
            assert(after[j] == sorted[j - 1]);
        } else {
            assert(after[i] == sorted[i]);
        }
    }
}

/// Orders the rows by the last part of their addresses.
pub fn sort_rows(rows: Vec<ScanResult>) -> (res: Vec<ScanResult>)
    ensures
        is_sorting(views(rows@), views(res@)),
{
    let ghost all = views(rows@);
    let mut rest = rows;
    let mut out: Vec<ScanResult> = Vec::new();
    let ghost mut done: int = 0;
    assert(views(out@) =~= all.take(0));
    while rest.len() > 0
        invariant
            0 <= done <= all.len(),
            views(rest@) == all.skip(done),
            is_sorting(all.take(done), views(out@)),
        decreases rest@.len(),
    {
        let ghost rest0 = rest@;
        let ghost out0 = out@;
        let row = rest.remove(0);
        proof {
            assert(views(rest0).len() == all.len() - done);
            assert(views(rest0)[0] == row@);
            assert(all.skip(done)[0] == all[done]);
            assert(views(rest@) =~= all.skip(done).drop_first());
            assert(all.skip(done).drop_first() =~= all.skip(done + 1));
            assert(all.take(done + 1) =~= all.take(done).push(row@));
        }
        let key = ip_sort_key(row.ip.as_str());
        let mut at: usize = out.len();
        while at > 0 && ip_sort_key(out[at - 1].ip.as_str()) > key
            invariant
                at <= out@.len(),
                key == sort_key(row@.ip),
                out@ == out0,
                forall|i: int|
                    at <= i < out@.len() ==> sort_key((#[trigger] views(out@)[i]).ip) > key,
            decreases at,
        {
            assert(views(out@)[at - 1] == out@[at - 1]@);
            at = at - 1;
        }
        proof {
            assert forall|i: int| 0 <= i < at implies sort_key((#[trigger] views(out@)[i]).ip)
                <= key by {
                assert(views(out@)[at - 1] == out@[at - 1]@);
                if i < at - 1 {
                    assert(sort_key(views(out@)[i].ip) <= sort_key(views(out@)[at - 1].ip));
                }
            }
            lemma_insert_row(all.take(done), views(out@), row@, at as int);
        }
        out.insert(at, row);
        proof {
            assert(views(out@) =~= views(out0).insert(at as int, row@));
            done = done + 1;
        }
    }
    assert(all.take(done) =~= all);
    out
}

fn best_mac_of(host: &ProbeResult, macs: &ArpTable) -> (res: Option<String>)
    ensures
        storage::text_of(res) == best_mac(host@, macs@),
{
    match macs.get(host.ip.as_str()) {
        Some(mac) => Some(mac),
        None => copy_text(&host.mac),
    }
}

fn best_name_of(host: &ProbeResult, lookup: &Option<Vec<u8>>) -> (res: Option<String>)
    ensures
        storage::text_of(res) == best_name(host@, output_of(*lookup)),
{
    match &host.hostname {
        Some(name) => Some(name.clone()),
        None => match lookup {
            Some(output) => reverse_dns(output, host.ip.as_str()),
            None => None,
        },
    }
}

fn build_row(
    host: &ProbeResult,
    macs: &ArpTable,
    registry: &OuiRegistry,
    lookup_output: &Option<Vec<u8>>,
    now: &str,
) -> (res: ScanResult)
    ensures
        res@ == row_of(host@, macs@, *registry, output_of(*lookup_output), now@),
{
    let mac = best_mac_of(host, macs);
    let vendor = match &mac {
        Some(m) => lookup(registry, m.as_str()),
        None => None,
    };
    let os_guess = guess_os(
        host.ttl,
        &host.open_ports,
        match &vendor {
            Some(v) => Some(v.as_str()),
            None => None,
        },
    );
    let res = ScanResult {
        ip: host.ip.clone(),
        mac,
        vendor,
        hostname: best_name_of(host, lookup_output),
        title: copy_text(&host.title),
        open_ports: copy_ports(&host.open_ports),
        rtt_ms: host.rtt_ms,
        ttl: host.ttl,
        os_guess,
        sources: copy_texts(&host.sources),
        last_seen: now.to_string(),
    };
    assert(res@ =~= row_of(host@, macs@, *registry, output_of(*lookup_output), now@));
    res
}

impl AliveHosts {
    /// How many hosts there are.
    pub fn len(&self) -> (res: usize)
        ensures
            res == self@.len(),
    {
        self.hosts.len()
    }

    /// The address to look up for the host at `i`: its own, where it has told
    /// no name.
    pub fn wants_lookup(&self, i: usize) -> (res: Option<String>)
        requires
            i < self@.len(),
        ensures
            match res {
                Some(ip) => self@[i as int].hostname is None && ip@ == self@[i as int].ip,
                None => self@[i as int].hostname is Some,
            },
    {
        if self.hosts[i].hostname.is_none() {
            Some(self.hosts[i].ip.clone())
        } else {
            None
        }
    }

    /// The rows of a scan at `now`. For each host `lookups` holds the output of
    /// a successful reverse lookup, if one was made.
    pub fn results(
        &self,
        macs: &ArpTable,
        registry: &OuiRegistry,
        lookups: &Vec<Option<Vec<u8>>>,
        now: &str,
    ) -> (res: Vec<ScanResult>)
        requires
            lookups@.len() == self@.len(),
        ensures
            is_sorting(rows_of(self@, macs@, *registry, lookups@, now@), views(res@)),
    {
        let mut out: Vec<ScanResult> = Vec::new();
        let ghost all = rows_of(self@, macs@, *registry, lookups@, now@);
        let mut i: usize = 0;
        assert(views(out@) =~= all.take(0));
        while i < self.hosts.len()
            invariant
                i <= self.hosts@.len(),
                lookups@.len() == self@.len(),
                all == rows_of(self@, macs@, *registry, lookups@, now@),
                views(out@) == all.take(i as int),
            decreases self.hosts@.len() - i,
        {
            let ghost before = out@;
            assert(self@[i as int] == self.hosts@[i as int]@);
            out.push(build_row(&self.hosts[i], macs, registry, &lookups[i], now));
            assert(views(out@) =~= views(before).push(all[i as int]));
            assert(all.take(i + 1) =~= all.take(i as int).push(all[i as int]));
            i = i + 1;
        }
        assert(all.take(i as int) =~= all);
        sort_rows(out)
    }
}

/// The dashboard's row for a device that a scan found.
pub open spec fn live_row(row: ScanModel) -> device::DeviceModel {
    device::DeviceModel {
        ip: row.ip,
        mac: row.mac,
        vendor: row.vendor,
        hostname: row.hostname,
        title: row.title,
        label: None,
        notes: None,
        open_ports: row.open_ports,
        rtt_ms: row.rtt_ms,
        ttl: row.ttl,
        os_guess: row.os_guess,
        sources: row.sources,
        last_seen: row.last_seen,
        first_seen_epoch: None,
        last_seen_epoch: None,
        times_seen: 0,
        online: true,
        is_new: false,
    }
}

/// The dashboard's row for a device that a scan found.
pub fn live_device(row: ScanResult) -> (res: Device)
    ensures
        res@ == live_row(row@),
{
    Device {
        ip: row.ip,
        mac: row.mac,
        vendor: row.vendor,
        hostname: row.hostname,
        title: row.title,
        label: None,
        notes: None,
        open_ports: row.open_ports,
        rtt_ms: row.rtt_ms,
        ttl: row.ttl,
        os_guess: row.os_guess,
        sources: row.sources,
        last_seen: row.last_seen,
        first_seen_epoch: None,
        last_seen_epoch: None,
        times_seen: 0,
        online: true,
        is_new: false,
    }
}

/// Entering a host leaves no address twice among the hosts.
pub proof fn law_hosts_stay_distinct(hosts: Seq<probe::HostModel>, host: probe::HostModel)
    requires
        found_once(hosts),
    ensures
        found_once(with_host(hosts, host)),
{
    lemma_place_of(hosts, host.ip);
}

/// The hardware address that the replies to a service search told of `ip`.
pub open spec fn told_mac(heard: Seq<(Seq<char>, ssdp::FactsModel)>, ip: Seq<char>) -> Option<
    Seq<char>,
>
    decreases heard.len(),
{
    if heard.len() == 0 {
        None
    } else if heard.last().0 == ip && heard.last().1.mac is Some {
        heard.last().1.mac
    } else {
        told_mac(heard.drop_last(), ip)
    }
}

/// What is heard by broadcast leaves no address twice among the hosts, and
/// drops none of them. A title stays, and so does what was measured; so does a
/// hardware address unless the host told another.
pub proof fn law_broadcasts_keep_hosts(
    hosts: Seq<probe::HostModel>,
    ips: Seq<Seq<char>>,
    heard: Seq<(Seq<char>, ssdp::FactsModel)>,
    names: Map<Seq<char>, Seq<char>>,
    i: int,
)
    requires
        found_once(hosts),
        0 <= i < hosts.len(),
    ensures
        ({
            let after = after_ssdp(after_mdns(hosts, ips), heard).map_values(
                |h: probe::HostModel| name_heard(h, names),
            );
            &&& found_once(after)
            &&& after.len() >= hosts.len()
            &&& after[i].ip == hosts[i].ip
            &&& after[i].open_ports == hosts[i].open_ports
            &&& after[i].ttl == hosts[i].ttl
            &&& after[i].rtt_ms == hosts[i].rtt_ms
            &&& hosts[i].title is Some ==> after[i].title == hosts[i].title
            &&& after[i].mac == (match told_mac(heard, hosts[i].ip) {
                Some(mac) => Some(mac),
                None => hosts[i].mac,
            })
        }),
{
    lemma_mdns_keeps(hosts, ips, i);
    lemma_ssdp_keeps(after_mdns(hosts, ips), heard, i);
    let after = after_ssdp(after_mdns(hosts, ips), heard);
    let named = after.map_values(|h: probe::HostModel| name_heard(h, names));
    assert forall|a: int, b: int| 0 <= a < b < named.len() implies (#[trigger] named[a]).ip != (
    #[trigger] named[b]).ip by {
        assert(after[a].ip != after[b].ip);
    }
}

/// Which hardware address the row of a probed host shows: the one that the
/// operating system knows; else the one that the host told in a service search;
/// else the one that its NetBIOS names brought.
pub proof fn law_address_priority(
    hosts: Seq<probe::HostModel>,
    ips: Seq<Seq<char>>,
    heard: Seq<(Seq<char>, ssdp::FactsModel)>,
    names: Map<Seq<char>, Seq<char>>,
    macs: Map<Seq<char>, Seq<char>>,
    registry: OuiRegistry,
    lookup: Option<Seq<u8>>,
    now: Seq<char>,
    i: int,
)
    requires
        found_once(hosts),
        0 <= i < hosts.len(),
    ensures
        ({
            let after = after_ssdp(after_mdns(hosts, ips), heard).map_values(
                |h: probe::HostModel| name_heard(h, names),
            );
            let ip = hosts[i].ip;
            row_of(after[i], macs, registry, lookup, now).mac == (if macs.contains_key(ip) {
                Some(macs[ip])
            } else if told_mac(heard, ip) is Some {
                told_mac(heard, ip)
            } else {
                hosts[i].mac
            })
        }),
{
    law_broadcasts_keep_hosts(hosts, ips, heard, names, i);
}

/// The row of a host that answered an echo shows the time to live and the round
/// trip of the answer, whatever else is heard of it, and a guess at its system.
pub proof fn law_echo_is_shown(
    hosts: Seq<probe::HostModel>,
    ip: Seq<char>,
    ttl: u8,
    rtt_ms: u32,
    ips: Seq<Seq<char>>,
    heard: Seq<(Seq<char>, ssdp::FactsModel)>,
    names: Map<Seq<char>, Seq<char>>,
    macs: Map<Seq<char>, Seq<char>>,
    registry: OuiRegistry,
    lookup: Option<Seq<u8>>,
    now: Seq<char>,
)
    requires
        found_once(hosts),
    ensures
        ({
            let noted = after_echo(hosts, ip, ttl, rtt_ms);
            let after = after_ssdp(after_mdns(noted, ips), heard).map_values(
                |h: probe::HostModel| name_heard(h, names),
            );
            match place_of(noted, ip) {
                Some(i) => {
                    let row = row_of(after[i], macs, registry, lookup, now);
                    &&& 0 <= i < after.len()
                    &&& row.ip == ip
                    &&& row.ttl == Some(ttl)
                    &&& row.rtt_ms == Some(rtt_ms)
                    &&& row.os_guess is Some
                },
                None => false,
            }
        }),
{
    let host = echo_heard(host_or_unknown(hosts, ip), ttl, rtt_ms);
    let noted = after_echo(hosts, ip, ttl, rtt_ms);
    lemma_place_of(hosts, ip);
    law_hosts_stay_distinct(hosts, host);
    let at = match place_of(hosts, ip) {
        Some(i) => i,
        None => hosts.len() as int,
    };
    assert(noted[at] == host);
    lemma_place_unique(noted, ip, at);
    law_broadcasts_keep_hosts(noted, ips, heard, names, at);
}

/// An echo changes nothing of the other hosts, and of the host that answered it
/// nothing but what was measured, where it was found before.
pub proof fn law_echo_changes_one_host(
    hosts: Seq<probe::HostModel>,
    ip: Seq<char>,
    ttl: u8,
    rtt_ms: u32,
    i: int,
)
    requires
        0 <= i < hosts.len(),
        hosts[i].sources.len() > 0,
    ensures
        ({
            let after = after_echo(hosts, ip, ttl, rtt_ms);
            &&& after.len() >= hosts.len()
            &&& place_of(hosts, ip) != Some(i) ==> after[i] == hosts[i]
            &&& place_of(hosts, ip) == Some(i) ==> after[i] == (probe::HostModel {
                ttl: Some(ttl),
                rtt_ms: Some(rtt_ms),
                ..hosts[i]
            })
        }),
{
    lemma_place_of(hosts, ip);
}

/// Without the answer to an echo a row shows neither a time to live nor a guess
/// at the system, and as its round trip the one that the probe measured.
pub proof fn law_no_echo_no_guess(
    host: probe::HostModel,
    macs: Map<Seq<char>, Seq<char>>,
    registry: OuiRegistry,
    lookup: Option<Seq<u8>>,
    now: Seq<char>,
)
    requires
        host.ttl is None,
    ensures
        row_of(host, macs, registry, lookup, now).ttl is None,
        row_of(host, macs, registry, lookup, now).os_guess is None,
        row_of(host, macs, registry, lookup, now).rtt_ms == host.rtt_ms,
{
}

proof fn lemma_mdns_keeps(hosts: Seq<probe::HostModel>, ips: Seq<Seq<char>>, i: int)
    requires
        found_once(hosts),
        0 <= i < hosts.len(),
    ensures
        ({
            let after = after_mdns(hosts, ips);
            &&& found_once(after)
            &&& after.len() >= hosts.len()
            &&& after[i].ip == hosts[i].ip
            &&& after[i].open_ports == hosts[i].open_ports
            &&& after[i].ttl == hosts[i].ttl
            &&& after[i].rtt_ms == hosts[i].rtt_ms
            &&& after[i].title == hosts[i].title
            &&& after[i].mac == hosts[i].mac
        }),
    decreases ips.len(),
{
    if ips.len() > 0 {
        lemma_mdns_keeps(hosts, ips.drop_last(), i);
        let before = after_mdns(hosts, ips.drop_last());
        lemma_place_of(before, ips.last());
        law_hosts_stay_distinct(before, mdns_heard(host_or_unknown(before, ips.last())));
    }
}

proof fn lemma_ssdp_keeps(
    hosts: Seq<probe::HostModel>,
    heard: Seq<(Seq<char>, ssdp::FactsModel)>,
    i: int,
)
    requires
        found_once(hosts),
        0 <= i < hosts.len(),
    ensures
        ({
            let after = after_ssdp(hosts, heard);
            &&& found_once(after)
            &&& after.len() >= hosts.len()
            &&& after[i].ip == hosts[i].ip
            &&& after[i].open_ports == hosts[i].open_ports
            &&& after[i].ttl == hosts[i].ttl
            &&& after[i].rtt_ms == hosts[i].rtt_ms
            &&& hosts[i].title is Some ==> after[i].title == hosts[i].title
            &&& after[i].mac == (match told_mac(heard, hosts[i].ip) {
                Some(mac) => Some(mac),
                None => hosts[i].mac,
            })
        }),
    decreases heard.len(),
{
    if heard.len() > 0 {
        lemma_ssdp_keeps(hosts, heard.drop_last(), i);
        let before = after_ssdp(hosts, heard.drop_last());
        let (ip, facts) = heard.last();
        lemma_place_of(before, ip);
        law_hosts_stay_distinct(before, ssdp_heard(host_or_unknown(before, ip), facts));
    }
}

/// Sorting keeps every row: it only moves them.
pub proof fn law_sorting_moves_rows(rows: Seq<ScanModel>, sorted: Seq<ScanModel>)
    requires
        is_sorting(rows, sorted),
    ensures
        sorted.to_multiset() == rows.to_multiset(),
{
    assert forall|row: ScanModel| sorted.to_multiset().count(row) == rows.to_multiset().count(
        row,
    ) by {
        let key = sort_key(row.ip);
        lemma_count_with_key(rows, row);
        lemma_count_with_key(sorted, row);
        assert(with_key(sorted, key) == with_key(rows, key));
    }
    assert(sorted.to_multiset() =~= rows.to_multiset());
}

proof fn lemma_count_with_key(rows: Seq<ScanModel>, row: ScanModel)
    ensures
        rows.to_multiset().count(row) == with_key(rows, sort_key(row.ip)).to_multiset().count(row),
    decreases rows.len(),
{
    broadcast use vstd::seq_lib::group_to_multiset_ensures;

    if rows.len() > 0 {
        let key = sort_key(row.ip);
        lemma_count_with_key(rows.drop_last(), row);
        assert(rows =~= rows.drop_last().push(rows.last()));
        assert(rows.to_multiset() =~= rows.drop_last().to_multiset().insert(rows.last()));
    }
}

/// The same address sorts to the same place whatever subnet it is in: only the
/// part behind the last dot counts.
pub proof fn law_key_is_last_part(prefix: Seq<char>, last: Seq<char>)
    requires
        !last.contains('.'),
    ensures
        sort_key(prefix + seq!['.'] + last) == (match numerals::number_in(last) {
            Some(n) => n,
            None => 0,
        }),
{
    lemma_last_piece(prefix, last);
}

proof fn lemma_last_piece(prefix: Seq<char>, last: Seq<char>)
    requires
        !last.contains('.'),
    ensures
        text::pieces(prefix + seq!['.'] + last, '.').len() >= 1,
        text::pieces(prefix + seq!['.'] + last, '.').last() == last,
    decreases last.len(),
{
    let all = prefix + seq!['.'] + last;
    if last.len() == 0 {
        assert(all.last() == '.');
        assert(last =~= Seq::<char>::empty());
    } else {
        let front = last.drop_last();
        assert forall|i: int| 0 <= i < front.len() implies front[i] != '.' by {
            assert(front[i] == last[i]);
        }
        lemma_last_piece(prefix, front);
        assert(all.drop_last() =~= prefix + seq!['.'] + front);
        assert(last[last.len() - 1] != '.');
        assert(front.push(last.last()) =~= last);
    }
}

/// A scan of the subnet of a local address covers the network that the address
/// is in.
pub proof fn law_own_network_is_scanned(local_ip: Seq<char>)
    requires
        !local_ip.contains('/'),
        network_of(local_ip) is Some,
    ensures
        prefix_of(subnet_of(local_ip)) == network_of(local_ip)->0,
{
    reveal_strlit(".0/24");
    let parts = text::pieces(local_ip, '.');
    let network = network_of(local_ip)->0;
    let base = network + ".0"@;
    reveal_strlit(".0");
    text::lemma_pieces_plain(local_ip, '.', '/');
    assert forall|i: int| 0 <= i < base.len() implies #[trigger] base[i] != '/' by {
        if i < parts[0].len() {
            assert(base[i] == parts[0][i]);
        } else if parts[0].len() < i <= parts[0].len() + parts[1].len() {
            assert(base[i] == parts[1][i - parts[0].len() - 1]);
        } else if parts[0].len() + parts[1].len() + 1 < i <= parts[0].len() + parts[1].len()
            + parts[2].len() + 1 {
            assert(base[i] == parts[2][i - parts[0].len() - parts[1].len() - 2]);
        }
    }
    assert(subnet_of(local_ip) =~= base + seq!['/'] + seq!['2', '4']);
    text::lemma_pieces_across(base, seq!['2', '4'], '/');
    text::lemma_one_piece(base, '/');
    assert(text::pieces(subnet_of(local_ip), '/')[0] == base);

    let head = parts[0] + seq!['.'] + parts[1];
    assert(base =~= head + seq!['.'] + parts[2] + seq!['.'] + seq!['0']);
    text::lemma_one_piece(parts[0], '.');
    text::lemma_one_piece(parts[1], '.');
    text::lemma_one_piece(parts[2], '.');
    text::lemma_one_piece(seq!['0'], '.');
    text::lemma_pieces_across(parts[0], parts[1], '.');
    text::lemma_pieces_across(head, parts[2], '.');
    text::lemma_pieces_across(head + seq!['.'] + parts[2], seq!['0'], '.');
    assert(text::pieces(base, '.') =~= seq![parts[0], parts[1], parts[2], seq!['0']]);
}

/// The network of an address of four parts is its first three; a text of another
/// shape has none.
pub proof fn law_network(a: Seq<char>, b: Seq<char>, c: Seq<char>, d: Seq<char>)
    requires
        !a.contains('.'),
        !b.contains('.'),
        !c.contains('.'),
        !d.contains('.'),
    ensures
        network_of(a + seq!['.'] + b + seq!['.'] + c + seq!['.'] + d) == Some(
            a + seq!['.'] + b + seq!['.'] + c,
        ),
        subnet_of(a + seq!['.'] + b + seq!['.'] + c + seq!['.'] + d) == a + seq!['.'] + b + seq![
            '.',
        ] + c + seq!['.', '0', '/', '2', '4'],
        network_of(a + seq!['.'] + b + seq!['.'] + c) is None,
        subnet_of(a + seq!['.'] + b + seq!['.'] + c) == "192.168.1.0/24"@,
{
    text::lemma_one_piece(a, '.');
    text::lemma_one_piece(b, '.');
    text::lemma_one_piece(c, '.');
    text::lemma_one_piece(d, '.');
    let ab = a + seq!['.'] + b;
    let abc = ab + seq!['.'] + c;
    text::lemma_pieces_across(a, b, '.');
    text::lemma_pieces_across(ab, c, '.');
    text::lemma_pieces_across(abc, d, '.');
    assert(text::pieces(abc, '.') =~= seq![a, b, c]);
    assert(text::pieces(abc + seq!['.'] + d, '.') =~= seq![a, b, c, d]);
    reveal_strlit(".0/24");
    assert(".0/24"@ =~= seq!['.', '0', '/', '2', '4']);
}

/// The addresses of a scan: the number of a host behind the network reads back.
pub proof fn law_host_address(a: Seq<char>, b: Seq<char>, c: Seq<char>, host: u32)
    requires
        !a.contains('.'),
        !b.contains('.'),
        !c.contains('.'),
    ensures
        sort_key(host_of(a + seq!['.'] + b + seq!['.'] + c, host)) == host,
        network_of(host_of(a + seq!['.'] + b + seq!['.'] + c, host)) == Some(
            a + seq!['.'] + b + seq!['.'] + c,
        ),
{
    numerals::law_decimal_reads_back(host as nat);
    let d = numerals::decimal(host as nat);
    assert forall|i: int| 0 <= i < d.len() implies #[trigger] d[i] != '.' by {
        assert('0' <= d[i] <= '9');
    }
    assert(!d.contains('.'));
    law_network(a, b, c, d);
    law_key_is_last_part(a + seq!['.'] + b + seq!['.'] + c, d);
}

/// What a row shows of its host: what was found of it, the time of the scan, and
/// what its hardware address tells of its maker. Its name is the one that it
/// told, and else the one that was looked up.
pub proof fn law_row_shows(
    host: probe::HostModel,
    macs: Map<Seq<char>, Seq<char>>,
    registry: OuiRegistry,
    output: Seq<u8>,
    now: Seq<char>,
)
    ensures
        ({
            let row = row_of(host, macs, registry, Some(output), now);
            let bare = row_of(host, macs, registry, None, now);
            &&& row.ip == host.ip
            &&& row.title == host.title
            &&& row.open_ports == host.open_ports
            &&& row.sources == host.sources
            &&& row.last_seen == now
            &&& row.ttl == host.ttl
            &&& row.rtt_ms == host.rtt_ms
            &&& macs.contains_key(host.ip) ==> row.mac == Some(macs[host.ip])
            &&& !macs.contains_key(host.ip) ==> row.mac == host.mac
            &&& row.mac is None ==> row.vendor is None
            &&& row.mac is Some ==> row.vendor == oui::maker(registry, row.mac->0)
            &&& row.os_guess == echo::os_of(row.ttl, row.open_ports, row.vendor)
            &&& host.hostname is Some ==> row.hostname == host.hostname
            &&& host.hostname is None ==> row.hostname == arp::name_from(
                text::line_seq(unicode::lossy_text(output)),
                host.ip,
                0,
            )
            &&& bare.hostname == host.hostname
        }),
{
}

/// What the dashboard takes over of a row: all of it. The device is online; what
/// is remembered of it is not known yet.
pub proof fn law_live_row_takes_all(row: ScanModel)
    ensures
        ({
            let d = live_row(row);
            &&& d.ip == row.ip
            &&& d.mac == row.mac
            &&& d.vendor == row.vendor
            &&& d.hostname == row.hostname
            &&& d.title == row.title
            &&& d.open_ports == row.open_ports
            &&& d.rtt_ms == row.rtt_ms
            &&& d.ttl == row.ttl
            &&& d.os_guess == row.os_guess
            &&& d.sources == row.sources
            &&& d.last_seen == row.last_seen
            &&& d.online
            &&& !d.is_new
            &&& d.times_seen == 0
            &&& d.label is None
            &&& d.notes is None
            &&& d.first_seen_epoch is None
            &&& d.last_seen_epoch is None
        }),
{
}

/// Every host has its row, with the outcome of its own lookup; sorted, they stand
/// in rising order of the last part of their addresses.
pub proof fn law_rows_of_hosts(
    hosts: Seq<probe::HostModel>,
    macs: Map<Seq<char>, Seq<char>>,
    registry: OuiRegistry,
    lookups: Seq<Option<Vec<u8>>>,
    now: Seq<char>,
    sorted: Seq<ScanModel>,
    i: int,
    j: int,
)
    requires
        lookups.len() == hosts.len(),
        is_sorting(rows_of(hosts, macs, registry, lookups, now), sorted),
        0 <= i < j < hosts.len(),
    ensures
        sorted.len() == hosts.len(),
        sort_key(sorted[i].ip) <= sort_key(sorted[j].ip),
        sorted.contains(row_of(hosts[i], macs, registry, output_of(lookups[i]), now)),
        sorted.contains(row_of(hosts[j], macs, registry, output_of(lookups[j]), now)),
{
    let rows = rows_of(hosts, macs, registry, lookups, now);
    law_sorting_moves_rows(rows, sorted);
    broadcast use vstd::seq_lib::group_to_multiset_ensures;

    assert(rows[i] == row_of(hosts[i], macs, registry, output_of(lookups[i]), now));
    assert(rows[j] == row_of(hosts[j], macs, registry, output_of(lookups[j]), now));
    assert(rows.contains(rows[i]) && rows.contains(rows[j]));
    assert(rows.to_multiset().count(rows[i]) > 0 && rows.to_multiset().count(rows[j]) > 0);
    assert(sorted.to_multiset().count(rows[i]) > 0 && sorted.to_multiset().count(rows[j]) > 0);
}

/// A source is named once, however often it is heard of, and behind those before.
pub proof fn law_source_is_added_once(sources: Seq<Seq<char>>, source: Seq<char>)
    ensures
        with_source(sources, source).contains(source),
        sources.contains(source) ==> with_source(sources, source) == sources,
        !sources.contains(source) ==> with_source(sources, source) == sources + seq![source],
{
    let more = sources.push(source);
    assert(more =~= sources + seq![source]);
    assert(more[sources.len() as int] == source);
}

/// What hearing of a host by multicast changes of it: its sources. A service
/// search may also bring a title where it has none, and an address; a name that
/// it answered is its name.
pub proof fn law_heard_of_host(
    host: probe::HostModel,
    facts: ssdp::FactsModel,
    names: Map<Seq<char>, Seq<char>>,
)
    ensures
        mdns_heard(host) == (probe::HostModel {
            sources: with_source(host.sources, "mdns"@),
            ..host
        }),
        ({
            let after = ssdp_heard(host, facts);
            &&& after.ip == host.ip
            &&& after.open_ports == host.open_ports
            &&& after.hostname == host.hostname
            &&& after.ttl == host.ttl
            &&& after.rtt_ms == host.rtt_ms
            &&& after.sources == with_source(host.sources, "ssdp"@)
            &&& host.title is Some ==> after.title == host.title
            &&& host.title is None ==> after.title == facts.server
            &&& facts.mac is Some ==> after.mac == facts.mac
            &&& facts.mac is None ==> after.mac == host.mac
        }),
        !names.contains_key(host.ip) ==> name_heard(host, names) == host,
        names.contains_key(host.ip) ==> name_heard(host, names) == (probe::HostModel {
            hostname: Some(names[host.ip]),
            sources: with_source(host.sources, "mdns"@),
            ..host
        }),
{
}

/// A host that only a multicast was heard of is known by its address and by that.
pub proof fn law_new_host_is_entered(hosts: Seq<probe::HostModel>, ip: Seq<char>)
    requires
        forall|i: int| 0 <= i < hosts.len() ==> (#[trigger] hosts[i]).ip != ip,
    ensures
        after_mdns(hosts, seq![ip]) == hosts + seq![
            probe::HostModel {
                ip,
                open_ports: Seq::empty(),
                title: None,
                sources: seq!["mdns"@],
                mac: None,
                hostname: None,
                ttl: None,
                rtt_ms: None,
            },
        ],
{
    lemma_place_of(hosts, ip);
    reveal_with_fuel(after_mdns, 2);
    assert(seq![ip].drop_last().len() == 0);
    let heard = mdns_heard(unknown_host(ip));
    assert(heard.sources =~= seq!["mdns"@]);
    assert(hosts.push(heard) =~= hosts + seq![heard]);
}

/// The hosts that are asked for their names are those without one, in order.
pub proof fn law_nameless_are_asked(hosts: Seq<probe::HostModel>, host: probe::HostModel)
    ensures
        nameless(Seq::<probe::HostModel>::empty()) == Seq::<Seq<char>>::empty(),
        nameless(hosts.push(host)) == (if host.hostname is None {
            nameless(hosts) + seq![host.ip]
        } else {
            nameless(hosts)
        }),
{
    assert(hosts.push(host).drop_last() =~= hosts);
    assert(nameless(hosts).push(host.ip) =~= nameless(hosts) + seq![host.ip]);
}

/// Sorting moves no two rows of one address number past each other: those of a
/// number come out as they went in.
pub proof fn law_equal_rows_keep_order(rows: Seq<ScanModel>, sorted: Seq<ScanModel>, key: int)
    requires
        is_sorting(rows, sorted),
    ensures
        sorted.filter(|r: ScanModel| sort_key(r.ip) == key) == rows.filter(
            |r: ScanModel| sort_key(r.ip) == key,
        ),
{
    lemma_with_key_is_filter(rows, key);
    lemma_with_key_is_filter(sorted, key);
    assert(with_key(sorted, key) == with_key(rows, key));
}

proof fn lemma_with_key_is_filter(rows: Seq<ScanModel>, key: int)
    ensures
        rows.filter(|r: ScanModel| sort_key(r.ip) == key) == with_key(rows, key),
    decreases rows.len(),
{
    reveal(Seq::filter);
    if rows.len() > 0 {
        lemma_with_key_is_filter(rows.drop_last(), key);
    }
}

/// A sweep begins with the first host and none under way; each host that is handed
/// out is under way, forty-eight at most, until it has been tried.
pub proof fn law_sweep_steps(events: Seq<SweepEvent>)
    ensures
        swept(Seq::<SweepEvent>::empty()) == (SweepModel { next: 1, active: 0 }),
        ({
            let s = swept(events);
            let launched = swept(events.push(SweepEvent::Launch));
            let landed = swept(events.push(SweepEvent::Land));
            &&& s.active < 48 && s.next <= 254 ==> launched.next == s.next + 1 && launched.active
                == s.active + 1
            &&& s.active >= 48 || s.next >= 255 ==> launched == s
            &&& s.active > 0 ==> landed.next == s.next && landed.active == s.active - 1
            &&& s.active <= 0 ==> landed == s
        }),
{
    assert(events.push(SweepEvent::Launch).drop_last() =~= events);
    assert(events.push(SweepEvent::Land).drop_last() =~= events);
}

}
