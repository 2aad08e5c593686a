//! The probe of one host: which ports to try, what to ask it next, and what
//! came of it.

use crate::device;
use crate::http;
use crate::netbios;
use crate::netbios::parse_nbstat;
use crate::numerals;
use crate::numerals::push_decimal;
use crate::storage;
use crate::text::{chars_of, string_of};
use vstd::prelude::*;

verus! {

/// The ports that are tried, in this order.
pub open spec fn port_list() -> Seq<u16> {
    seq![
        21,
        22,
        23,
        25,
        53,
        80,
        110,
        139,
        143,
        443,
        445,
        631,
        993,
        995,
        1883,
        3306,
        3389,
        5000,
        5555,
        5900,
        7000,
        8000,
        8008,
        8080,
        8081,
        8443,
        8888,
        9000,
        9100,
        32400,
    ]
}

/// How many ports are tried.
pub const PORT_COUNT: usize = 30;

/// The ports that are tried, in order.
pub fn probe_ports() -> (res: Vec<u16>)
    ensures
        res@ == port_list(),
        res@.len() == PORT_COUNT,
{
    let res: Vec<u16> = vec![
        21, 22, 23, 25, 53, 80, 110, 139, 143, 443, 445, 631, 993, 995, 1883, 3306, 3389, 5000,
        5555, 5900, 7000, 8000, 8008, 8080, 8081, 8443, 8888, 9000, 9100, 32400,
    ];
    assert(res@ =~= port_list());
    res
}

/// How an attempt to connect ended.
#[derive(Clone, Copy, Debug, PartialEq, Eq, Structural)]
pub enum Connect {
    /// The port is open.
    Open,
    /// The host refused: it is there, but the port is closed.
    Refused,
    /// Nothing was heard.
    Silent,
}

/// What to do next with a host.
#[derive(Clone, Copy, Debug, PartialEq, Eq, Structural)]
pub enum Action {
    /// Try to connect to this port.
    TryPort(u16),
    /// Ask for its NetBIOS names.
    AskNames,
    /// Fetch the title of the page on this port.
    FetchTitle(u16),
    /// Nothing more.
    Stop,
}

/// What is known of a host after its probe.
#[verifier::ext_equal]
pub struct HostModel {
    pub ip: Seq<char>,
    pub open_ports: Seq<u16>,
    pub title: Option<Seq<char>>,
    pub sources: Seq<Seq<char>>,
    pub mac: Option<Seq<char>>,
    pub hostname: Option<Seq<char>>,
    /// The time to live of its answer to an echo, if it gave one.
    pub ttl: Option<u8>,
    /// The round trip of that echo, or else of the first connection that it
    /// answered, in milliseconds.
    pub rtt_ms: Option<u32>,
}

/// What is known of a host after its probe.
#[derive(Clone, Debug)]
pub struct ProbeResult {
    pub ip: String,
    pub open_ports: Vec<u16>,
    pub title: Option<String>,
    pub sources: Vec<String>,
    pub mac: Option<String>,
    pub hostname: Option<String>,
    /// The time to live of its answer to an echo, if it gave one.
    pub ttl: Option<u8>,
    /// The round trip of that echo, or else of the first connection that it
    /// answered, in milliseconds.
    pub rtt_ms: Option<u32>,
}

impl View for ProbeResult {
    type V = HostModel;

    open spec fn view(&self) -> HostModel {
        HostModel {
            ip: self.ip@,
            open_ports: self.open_ports@,
            title: storage::text_of(self.title),
            sources: device::texts_of(self.sources@),
            mac: storage::text_of(self.mac),
            hostname: storage::text_of(self.hostname),
            ttl: self.ttl,
            rtt_ms: self.rtt_ms,
        }
    }
}

/// What a NetBIOS node told: its address and its name.
pub type Names = (Option<Seq<char>>, Option<Seq<char>>);

/// How far the probe of a host has come.
#[verifier::ext_equal]
pub struct ProbeModel {
    pub ip: Seq<char>,
    /// How many ports were tried.
    pub tried: int,
    /// The open ones among them.
    pub open_ports: Seq<u16>,
    /// Whether any of them was refused.
    pub refused: bool,
    /// How long the first attempt that was answered took, in milliseconds.
    pub rtt_ms: Option<u32>,
    /// Whether the names were asked for.
    pub asked: bool,
    /// What came back, if anything did.
    pub names: Option<Names>,
    /// How many of the open ports were looked at for a title.
    pub looked: int,
    pub title: Option<Seq<char>>,
}

/// A probe that has not begun.
pub open spec fn fresh(ip: Seq<char>) -> ProbeModel {
    ProbeModel {
        ip,
        tried: 0,
        open_ports: Seq::<u16>::empty(),
        refused: false,
        rtt_ms: None,
        asked: false,
        names: None,
        looked: 0,
        title: None,
    }
}

/// The first port from `i` on that may serve web pages.
pub open spec fn web_port_from(ports: Seq<u16>, i: int) -> Option<int>
    decreases ports.len() - i,
{
    if i >= ports.len() {
        None
    } else if http::is_http_port(ports[i]) {
        Some(i)
    } else {
        web_port_from(ports, i + 1)
    }
}

/// How an open port is named among the sources.
pub open spec fn port_source(port: u16) -> Seq<char> {
    "tcp:"@ + numerals::decimal(port as nat)
}

/// By what a host was found: its open ports, a refusal, its names.
pub open spec fn sources_of(ports: Seq<u16>, refused: bool, named: bool) -> Seq<Seq<char>> {
    ports.map_values(|p: u16| port_source(p)) + (if refused {
        seq!["tcp-rst"@]
    } else {
        Seq::<Seq<char>>::empty()
    }) + (if named {
        seq!["netbios"@]
    } else {
        Seq::<Seq<char>>::empty()
    })
}

/// Whether the host gave any sign of life.
pub open spec fn alive(p: ProbeModel) -> bool {
    p.open_ports.len() > 0 || p.refused || p.names is Some
}

/// What to do next: try every port, then ask for the names, then, if the host
/// is there, look through its web servers until one has a title.
pub open spec fn next_action(p: ProbeModel) -> Action {
    if p.tried < PORT_COUNT {
        Action::TryPort(port_list()[p.tried])
    } else if !p.asked {
        Action::AskNames
    } else if !alive(p) || p.title is Some {
        Action::Stop
    } else {
        match web_port_from(p.open_ports, p.looked) {
            Some(i) => Action::FetchTitle(p.open_ports[i]),
            None => Action::Stop,
        }
    }
}

/// The probe after an attempt to connect, which took so many milliseconds.
pub open spec fn after_connect(p: ProbeModel, ended: Connect, took_ms: u32) -> ProbeModel {
    ProbeModel {
        tried: p.tried + 1,
        open_ports: if ended is Open {
            p.open_ports.push(port_list()[p.tried])
        } else {
            p.open_ports
        },
        refused: p.refused || ended is Refused,
        rtt_ms: if p.rtt_ms is None && !(ended is Silent) {
            Some(took_ms)
        } else {
            p.rtt_ms
        },
        ..p
    }
}

/// The probe after the names were asked for.
pub open spec fn after_names(p: ProbeModel, reply: Option<Seq<u8>>) -> ProbeModel {
    ProbeModel {
        asked: true,
        names: match reply {
            Some(packet) => Some(netbios::node_status(packet)),
            None => None,
        },
        ..p
    }
}

/// The probe after a title was fetched.
pub open spec fn after_title(p: ProbeModel, title: Option<Seq<char>>) -> ProbeModel {
    match web_port_from(p.open_ports, p.looked) {
        Some(i) => ProbeModel { looked: i + 1, title, ..p },
        None => p,
    }
}

/// What came of the probe: nothing where the host gave no sign.
pub open spec fn outcome(p: ProbeModel) -> Option<HostModel> {
    if alive(p) {
        Some(
            HostModel {
                ip: p.ip,
                open_ports: p.open_ports,
                title: p.title,
                sources: sources_of(p.open_ports, p.refused, p.names is Some),
                mac: match p.names {
                    Some(n) => n.0,
                    None => None,
                },
                hostname: match p.names {
                    Some(n) => n.1,
                    None => None,
                },
                ttl: None,
                rtt_ms: p.rtt_ms,
            },
        )
    } else {
        None
    }
}

/// The probe of a host under way.
pub struct HostProbe {
    ip: String,
    tried: usize,
    open_ports: Vec<u16>,
    refused: bool,
    rtt_ms: Option<u32>,
    asked: bool,
    named: bool,
    mac: Option<String>,
    hostname: Option<String>,
    looked: usize,
    title: Option<String>,
}

impl View for HostProbe {
    type V = ProbeModel;

    closed spec fn view(&self) -> ProbeModel {
        ProbeModel {
            ip: self.ip@,
            tried: self.tried as int,
            open_ports: self.open_ports@,
            refused: self.refused,
            rtt_ms: self.rtt_ms,
            asked: self.asked,
            names: if self.named {
                Some((storage::text_of(self.mac), storage::text_of(self.hostname)))
            } else {
                None
            },
            looked: self.looked as int,
            title: storage::text_of(self.title),
        }
    }
}

/// Writes how an open port is named among the sources.
fn name_port(port: u16) -> (res: String)
    ensures
        res@ == port_source(port),
{
    let mut out = chars_of("tcp:");
    push_decimal(&mut out, port as u64);
    string_of(&out)
}

/// Lists by what a host was found.
pub fn name_sources(ports: &Vec<u16>, refused: bool, named: bool) -> (res: Vec<String>)
    ensures
        device::texts_of(res@) == sources_of(ports@, refused, named),
{
    let mut out: Vec<String> = Vec::new();
    let ghost all = ports@.map_values(|p: u16| port_source(p));
    let mut i: usize = 0;
    assert(device::texts_of(out@) =~= all.take(0));
    while i < ports.len()
        invariant
            i <= ports@.len(),
            all == ports@.map_values(|p: u16| port_source(p)),
            device::texts_of(out@) == all.take(i as int),
        decreases ports@.len() - i,
    {
        let ghost before = out@;
        out.push(name_port(ports[i]));
        assert(device::texts_of(out@) =~= device::texts_of(before).push(all[i as int]));
        assert(all.take(i + 1) =~= all.take(i as int).push(all[i as int]));
        i = i + 1;
    }
    assert(all.take(i as int) =~= all);
    if refused {
        out.push("tcp-rst".to_string());
    }
    if named {
        out.push("netbios".to_string());
    }
    assert(device::texts_of(out@) =~= sources_of(ports@, refused, named));
    out
}

fn find_web_port(ports: &Vec<u16>, from: usize) -> (res: Option<usize>)
    ensures
        match res {
            Some(i) => web_port_from(ports@, from as int) == Some(i as int) && from <= i
                < ports@.len(),
            None => web_port_from(ports@, from as int) is None,
        },
{
    let mut i: usize = from;
    while i < ports.len()
        invariant
            from <= i,
            web_port_from(ports@, i as int) == web_port_from(ports@, from as int),
        decreases ports@.len() - i,
    {
        if http::serves_pages(ports[i]) {
            return Some(i);
        }
        i = i + 1;
    }
    None
}

impl HostProbe {
    /// A probe of `ip` that has not begun.
    pub fn new(ip: String) -> (res: Self)
        ensures
            res@ == fresh(ip@),
    {
        let res = HostProbe {
            ip,
            tried: 0,
            open_ports: Vec::new(),
            refused: false,
            rtt_ms: None,
            asked: false,
            named: false,
            mac: None,
            hostname: None,
            looked: 0,
            title: None,
        };
        assert(res@ =~= fresh(ip@));
        res
    }

    fn is_alive(&self) -> (res: bool)
        ensures
            res == alive(self@),
    {
        self.open_ports.len() > 0 || self.refused || self.named
    }

    /// What to do next.
    pub fn next(&self) -> (res: Action)
        ensures
            res == next_action(self@),
    {
        if self.tried < PORT_COUNT {
            let ports = probe_ports();
            return Action::TryPort(ports[self.tried]);
        }
        if !self.asked {
            return Action::AskNames;
        }
        if !self.is_alive() || self.title.is_some() {
            return Action::Stop;
        }
        match find_web_port(&self.open_ports, self.looked) {
            Some(i) => Action::FetchTitle(self.open_ports[i]),
            None => Action::Stop,
        }
    }

    /// Takes in how the attempt to connect ended, and how many milliseconds it
    /// took.
    pub fn connected(&mut self, ended: Connect, took_ms: u32)
        requires
            next_action(old(self)@) is TryPort,
        ensures
            final(self)@ == after_connect(old(self)@, ended, took_ms),
    {
        let ghost before = self@;
        match ended {
            Connect::Open => {
                let ports = probe_ports();
                self.open_ports.push(ports[self.tried]);
            },
            Connect::Refused => {
                self.refused = true;
            },
            Connect::Silent => {},
        }
        if self.rtt_ms.is_none() && ended != Connect::Silent {
            self.rtt_ms = Some(took_ms);
        }
        self.tried = self.tried + 1;
        assert(self@ =~= after_connect(before, ended, took_ms));
    }

    /// Takes in the reply to the question for its names, or that there was
    /// none.
    pub fn names_replied(&mut self, reply: Option<&[u8]>)
        requires
            next_action(old(self)@) is AskNames,
        ensures
            final(self)@ == after_names(
                old(self)@,
                match reply {
                    Some(packet) => Some(packet@),
                    None => None,
                },
            ),
    {
        self.asked = true;
        match reply {
            Some(packet) => {
                let (mac, hostname) = parse_nbstat(packet);
                self.named = true;
                self.mac = mac;
                self.hostname = hostname;
            },
            None => {
                self.named = false;
            },
        }
    }

    /// Takes in the title that was fetched, or that there was none.
    pub fn title_fetched(&mut self, title: Option<String>)
        requires
            next_action(old(self)@) is FetchTitle,
        ensures
            final(self)@ == after_title(old(self)@, storage::text_of(title)),
    {
        let n = self.open_ports.len();
        match find_web_port(&self.open_ports, self.looked) {
            Some(i) => {
                self.looked = i + 1;
                self.title = title;
            },
            None => {},
        }
    }

    /// What came of the probe.
    pub fn finish(self) -> (res: Option<ProbeResult>)
        requires
            next_action(self@) is Stop,
        ensures
            match res {
                Some(host) => outcome(self@) == Some(host@),
                None => outcome(self@) is None,
            },
    {
        if !self.is_alive() {
            return None;
        }
        let sources = name_sources(&self.open_ports, self.refused, self.named);
        let (mac, hostname) = if self.named {
            (self.mac, self.hostname)
        } else {
            (None, None)
        };
        Some(
            ProbeResult {
                ip: self.ip,
                open_ports: self.open_ports,
                title: self.title,
                sources,
                mac,
                hostname,
                ttl: None,
                rtt_ms: self.rtt_ms,
            },
        )
    }
}

/// The probe of `ip` after the given attempts to connect, and the milliseconds
/// that each took.
pub open spec fn after_connects(ip: Seq<char>, ended: Seq<Connect>, took: Seq<u32>) -> ProbeModel
    decreases ended.len(),
{
    if ended.len() == 0 {
        fresh(ip)
    } else {
        after_connect(
            after_connects(ip, ended.drop_last(), took.drop_last()),
            ended.last(),
            took.last(),
        )
    }
}

/// The ports that were found open by the given attempts.
pub open spec fn found_open(ended: Seq<Connect>) -> Seq<u16>
    decreases ended.len(),
{
    if ended.len() == 0 {
        Seq::<u16>::empty()
    } else if ended.last() is Open {
        found_open(ended.drop_last()).push(port_list()[ended.len() - 1])
    } else {
        found_open(ended.drop_last())
    }
}

/// Every port is tried once, in order, and only then are the names asked for.
/// The open ports are those that let a connection in, in the order tried.
pub proof fn law_every_port_is_tried(ip: Seq<char>, ended: Seq<Connect>, took: Seq<u32>)
    requires
        ended.len() <= PORT_COUNT,
        took.len() == ended.len(),
    ensures
        ({
            let p = after_connects(ip, ended, took);
            &&& next_action(p) == (if ended.len() < PORT_COUNT {
                Action::TryPort(port_list()[ended.len() as int])
            } else {
                Action::AskNames
            })
            &&& p.ip == ip
            &&& p.open_ports == found_open(ended)
            &&& p.refused <==> ended.contains(Connect::Refused)
        }),
{
    lemma_after_connects(ip, ended, took);
}

proof fn lemma_after_connects(ip: Seq<char>, ended: Seq<Connect>, took: Seq<u32>)
    ensures
        ({
            let p = after_connects(ip, ended, took);
            &&& p.tried == ended.len()
            &&& p.ip == ip
            &&& p.open_ports == found_open(ended)
            &&& p.open_ports.len() > 0 <==> ended.contains(Connect::Open)
            &&& p.refused <==> ended.contains(Connect::Refused)
            &&& !p.asked
            &&& p.names is None
            &&& p.looked == 0
            &&& p.title is None
        }),
    decreases ended.len(),
{
    if ended.len() > 0 {
        let front = ended.drop_last();
        lemma_after_connects(ip, front, took.drop_last());
        assert(ended =~= front.push(ended.last()));
        assert forall|c: Connect| ended.contains(c) <==> (front.contains(c) || ended.last() == c) by {
            if front.contains(c) {
                let i = choose|i: int| 0 <= i < front.len() && front[i] == c;
                assert(ended[i] == c);
            }
            if ended.last() == c {
                assert(ended[ended.len() - 1] == c);
            }
            if ended.contains(c) && ended.last() != c {
                let i = choose|i: int| 0 <= i < ended.len() && ended[i] == c;
                assert(front[i] == c);
            }
        }
    }
}

/// Without an echo the round trip of a host is the time that the first attempt
/// took which it answered, and the titles fetched later do not change it.
pub proof fn law_first_answer_is_timed(
    ip: Seq<char>,
    ended: Seq<Connect>,
    took: Seq<u32>,
    reply: Option<Seq<u8>>,
    title: Option<Seq<char>>,
    i: int,
)
    requires
        took.len() == ended.len(),
        0 <= i < ended.len(),
        !(ended[i] is Silent),
        forall|j: int| 0 <= j < i ==> (#[trigger] ended[j]) is Silent,
    ensures
        ({
            let p = after_names(after_connects(ip, ended, took), reply);
            &&& outcome(p) matches Some(host) && host.rtt_ms == Some(took[i])
            &&& outcome(after_title(p, title)) matches Some(host) && host.rtt_ms == Some(took[i])
        }),
{
    lemma_after_connects(ip, ended, took);
    lemma_first_answer(ip, ended, took, i);
    match ended[i] {
        Connect::Open => assert(ended.contains(Connect::Open)),
        Connect::Refused => assert(ended.contains(Connect::Refused)),
        Connect::Silent => {},
    }
}

proof fn lemma_first_answer(ip: Seq<char>, ended: Seq<Connect>, took: Seq<u32>, i: int)
    requires
        took.len() == ended.len(),
        0 <= i <= ended.len(),
        i < ended.len() ==> !(ended[i] is Silent),
        forall|j: int| 0 <= j < i ==> (#[trigger] ended[j]) is Silent,
    ensures
        after_connects(ip, ended, took).rtt_ms == (if i < ended.len() {
            Some(took[i])
        } else {
            None
        }),
    decreases ended.len(),
{
    if ended.len() > 0 {
        let front = ended.drop_last();
        assert forall|j: int| 0 <= j < i && j < front.len() implies (#[trigger] front[j])
            is Silent by {
            assert(ended[j] is Silent);
        }
        if i < ended.len() {
            lemma_first_answer(ip, front, took.drop_last(), i);
        } else {
            assert(ended[i - 1] is Silent);
            lemma_first_answer(ip, front, took.drop_last(), i - 1);
        }
    }
}

/// A host is found exactly when a port was open or refused, or its names came
/// back; otherwise its probe ends there. A host that is found has a source.
pub proof fn law_host_is_found(
    ip: Seq<char>,
    ended: Seq<Connect>,
    took: Seq<u32>,
    reply: Option<Seq<u8>>,
)
    requires
        ended.len() == PORT_COUNT,
        took.len() == PORT_COUNT,
    ensures
        ({
            let p = after_names(after_connects(ip, ended, took), reply);
            let found = ended.contains(Connect::Open) || ended.contains(Connect::Refused)
                || reply is Some;
            &&& outcome(p) is Some <==> found
            &&& !found ==> next_action(p) is Stop
            &&& outcome(p) matches Some(host) ==> host.sources.len() > 0
        }),
{
    lemma_after_connects(ip, ended, took);
}

/// The first title ends the search; without one, the search goes on behind the
/// port that was asked, so that no port is asked twice.
pub proof fn law_first_title_wins(p: ProbeModel, title: Seq<char>)
    requires
        next_action(p) is FetchTitle,
        0 <= p.looked,
    ensures
        next_action(after_title(p, Some(title))) is Stop,
        outcome(after_title(p, Some(title))) matches Some(host) && host.title == Some(title),
        after_title(p, None).title is None,
        after_title(p, None).looked > p.looked,
        after_title(p, None).looked <= p.open_ports.len(),
        next_action(after_title(p, None)) is Stop || next_action(after_title(p, None))
            is FetchTitle,
{
    lemma_web_port(p.open_ports, p.looked);
}

proof fn lemma_web_port(ports: Seq<u16>, i: int)
    requires
        0 <= i,
    ensures
        web_port_from(ports, i) matches Some(k) ==> i <= k < ports.len() && http::is_http_port(
            ports[k],
        ),
    decreases ports.len() - i,
{
    if i < ports.len() && !http::is_http_port(ports[i]) {
        lemma_web_port(ports, i + 1);
    }
}

/// Only ports that serve web pages are asked for a title, and only open ones.
pub proof fn law_titles_come_from_web_ports(p: ProbeModel)
    requires
        0 <= p.looked,
    ensures
        next_action(p) matches Action::FetchTitle(port) ==> http::is_http_port(port)
            && p.open_ports.contains(port),
{
    lemma_web_port(p.open_ports, p.looked);
}

/// The sources of a host: `tcp:` and the number of each open port in order, then
/// `tcp-rst` where a port was refused, then `netbios` where its names came back.
pub proof fn law_sources(ports: Seq<u16>, refused: bool, named: bool)
    ensures
        ({
            let all = sources_of(ports, refused, named);
            let n = ports.len() as int;
            &&& forall|i: int|
                0 <= i < n ==> #[trigger] all[i] == seq!['t', 'c', 'p', ':'] + numerals::decimal(
                    ports[i] as nat,
                )
            &&& refused ==> all[n] == "tcp-rst"@
            &&& named ==> all[all.len() - 1] == "netbios"@
            &&& all.len() == n + (if refused {
                1int
            } else {
                0
            }) + (if named {
                1int
            } else {
                0
            })
        }),
{
    reveal_strlit("tcp:");
    assert("tcp:"@ =~= seq!['t', 'c', 'p', ':']);
}

/// What comes of the probe of a host that gave a sign: its address, its open
/// ports, the title that was fetched, the address and the name that its names
/// brought, and how long its first answer took.
pub proof fn law_outcome(
    ip: Seq<char>,
    ended: Seq<Connect>,
    took: Seq<u32>,
    packet: Seq<u8>,
    answered: bool,
)
    requires
        took.len() == ended.len(),
        answered || ended.contains(Connect::Open) || ended.contains(Connect::Refused),
    ensures
        ({
            let reply = if answered {
                Some(packet)
            } else {
                None
            };
            outcome(after_names(after_connects(ip, ended, took), reply)) matches Some(host) && {
                &&& host.ip == ip
                &&& host.open_ports == found_open(ended)
                &&& host.title is None
                &&& host.ttl is None
                &&& answered ==> host.mac == netbios::node_status(packet).0 && host.hostname
                    == netbios::node_status(packet).1
                &&& !answered ==> host.mac is None && host.hostname is None
                &&& host.sources == sources_of(
                    found_open(ended),
                    ended.contains(Connect::Refused),
                    answered,
                )
            }
        }),
{
    lemma_after_connects(ip, ended, took);
}

/// A port is open exactly where the attempt to connect to it was let in.
pub proof fn law_open_ports(ended: Seq<Connect>, last: Connect)
    requires
        ended.len() < PORT_COUNT,
    ensures
        found_open(ended.push(last)) == (if last is Open {
            found_open(ended) + seq![port_list()[ended.len() as int]]
        } else {
            found_open(ended)
        }),
        found_open(Seq::<Connect>::empty()) == Seq::<u16>::empty(),
{
    assert(ended.push(last).drop_last() =~= ended);
    assert(found_open(ended).push(port_list()[ended.len() as int]) =~= found_open(ended)
        + seq![port_list()[ended.len() as int]]);
}

/// Which ports are tried: thirty of them, in rising order, from that of file
/// transfer to that of media servers, the web and the remote desktop among them.
pub proof fn law_ports_tried(i: int, j: int)
    requires
        0 <= i < j < 30,
    ensures
        port_list().len() == 30,
        port_list()[i] < port_list()[j],
        port_list()[0] == 21,
        port_list()[1] == 22,
        port_list()[5] == 80,
        port_list()[9] == 443,
        port_list()[10] == 445,
        port_list()[16] == 3389,
        port_list()[23] == 8080,
        port_list()[29] == 32400,
{
}

}
