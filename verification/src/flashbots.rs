//! The relays that a bundle is broadcast to, and which of them receive
//! signed requests.

use vstd::prelude::*;

verus! {

/// A relay: its URL, the name it is reported by, and whether requests to it
/// are signed with the broadcaster's key.
#[derive(Clone, Debug)]
pub struct RelaySpec {
    pub url: String,
    pub name: String,
    pub signed: bool,
}

/// The default relays, by URL, each with whether it is sent unsigned.
pub open spec fn default_relay_configs() -> Seq<(Seq<char>, bool)> {
    seq![
        ("https://relay.flashbots.net"@, false),
        ("https://rpc.beaverbuild.org/"@, false),
        ("https://rpc.titanbuilder.xyz"@, false),
        ("https://rsync-builder.xyz"@, false),
        ("https://api.edennetwork.io/v1/bundle"@, false),
        ("https://eth-builder.com"@, true),
        ("https://api.securerpc.com/v1"@, true),
        ("https://BuildAI.net"@, true),
        ("https://rpc.payload.de"@, true),
        ("https://rpc.f1b.io"@, false),
        ("https://rpc.lokibuilder.xyz"@, false),
        ("https://rpc.ibuilder.xyz"@, false),
        ("https://rpc.jetbldr.xyz"@, false),
        ("https://rpc.penguinbuild.org"@, false),
        ("https://builder.gmbit.co/rpc"@, false),
    ]
}

/// The default relays that take unsigned requests are exactly
/// eth-builder.com, api.securerpc.com/v1, BuildAI.net and rpc.payload.de;
/// every other default relay is sent signed requests.
pub proof fn lemma_default_relays_unsigned(i: int)
    requires
        0 <= i < default_relay_configs().len(),
    ensures
        default_relay_configs().len() == 15,
        default_relay_configs()[i].1 <==> (default_relay_configs()[i].0 == "https://eth-builder.com"@
            || default_relay_configs()[i].0 == "https://api.securerpc.com/v1"@
            || default_relay_configs()[i].0 == "https://BuildAI.net"@
            || default_relay_configs()[i].0 == "https://rpc.payload.de"@),
{
    reveal_strlit("https://relay.flashbots.net");
    reveal_strlit("https://rpc.beaverbuild.org/");
    reveal_strlit("https://rpc.titanbuilder.xyz");
    reveal_strlit("https://rsync-builder.xyz");
    reveal_strlit("https://api.edennetwork.io/v1/bundle");
    reveal_strlit("https://eth-builder.com");
    reveal_strlit("https://api.securerpc.com/v1");
    reveal_strlit("https://BuildAI.net");
    reveal_strlit("https://rpc.payload.de");
    reveal_strlit("https://rpc.f1b.io");
    reveal_strlit("https://rpc.lokibuilder.xyz");
    reveal_strlit("https://rpc.ibuilder.xyz");
    reveal_strlit("https://rpc.jetbldr.xyz");
    reveal_strlit("https://rpc.penguinbuild.org");
    reveal_strlit("https://builder.gmbit.co/rpc");
    let url = default_relay_configs()[i].0;
    if !default_relay_configs()[i].1 {
        assert(url.len() != "https://eth-builder.com"@.len() || url[8] != "https://eth-builder.com"@[8]);
        assert(url.len() != "https://api.securerpc.com/v1"@.len() || url[8] != "https://api.securerpc.com/v1"@[8]);
        assert(url.len() != "https://BuildAI.net"@.len() || url[8] != "https://BuildAI.net"@[8]);
        assert(url.len() != "https://rpc.payload.de"@.len() || url[12] != "https://rpc.payload.de"@[12]);
    }
}

/// The relay at `url`, named by its URL, signed unless `no_sign`.
pub open spec fn relay_for(r: RelaySpec, url: Seq<char>, no_sign: bool) -> bool {
    r.url@ == url && r.name@ == url && r.signed == !no_sign
}

/// A relay at `url`, named by its URL.
fn relay(url: &str, signed: bool) -> (r: RelaySpec)
    ensures
        relay_for(r, url@, !signed),
{
    RelaySpec { url: url.to_owned(), name: url.to_owned(), signed }
}

/// The list of relays a bundle is broadcast to.
pub struct RelayPlan {
    relays: Vec<RelaySpec>,
}

impl RelayPlan {
    /// The relays, in order.
    pub closed spec fn relays(&self) -> Seq<RelaySpec> {
        self.relays@
    }

    /// No relay yet.
    pub fn new() -> (r: Self)
        ensures
            r.relays().len() == 0,
    {
        RelayPlan { relays: Vec::new() }
    }

    /// The default relays in place of the current ones: each named by its
    /// URL, and signed unless it is one that takes unsigned requests.
    pub fn with_default_relays(self) -> (r: Self)
        ensures
            r.relays().len() == default_relay_configs().len(),
            forall|i: int|
                0 <= i < r.relays().len() ==> relay_for(
                    #[trigger] r.relays()[i],
                    default_relay_configs()[i].0,
                    default_relay_configs()[i].1,
                ),
            forall|i: int|
                0 <= i < r.relays().len() ==> ((#[trigger] r.relays()[i]).signed <==> !(
                r.relays()[i].url@ == "https://eth-builder.com"@ || r.relays()[i].url@
                    == "https://api.securerpc.com/v1"@ || r.relays()[i].url@ == "https://BuildAI.net"@
                    || r.relays()[i].url@ == "https://rpc.payload.de"@)),
    {
        let mut relays: Vec<RelaySpec> = Vec::new();
        relays.push(relay("https://relay.flashbots.net", true));
        relays.push(relay("https://rpc.beaverbuild.org/", true));
        relays.push(relay("https://rpc.titanbuilder.xyz", true));
        relays.push(relay("https://rsync-builder.xyz", true));
        relays.push(relay("https://api.edennetwork.io/v1/bundle", true));
        relays.push(relay("https://eth-builder.com", false));
        relays.push(relay("https://api.securerpc.com/v1", false));
        relays.push(relay("https://BuildAI.net", false));
        relays.push(relay("https://rpc.payload.de", false));
        relays.push(relay("https://rpc.f1b.io", true));
        relays.push(relay("https://rpc.lokibuilder.xyz", true));
        relays.push(relay("https://rpc.ibuilder.xyz", true));
        relays.push(relay("https://rpc.jetbldr.xyz", true));
        relays.push(relay("https://rpc.penguinbuild.org", true));
        relays.push(relay("https://builder.gmbit.co/rpc", true));
        let r = RelayPlan { relays };
        assert forall|i: int| 0 <= i < r.relays().len() implies ((#[trigger] r.relays()[i]).signed <==> !(
            r.relays()[i].url@ == "https://eth-builder.com"@ || r.relays()[i].url@
                == "https://api.securerpc.com/v1"@ || r.relays()[i].url@ == "https://BuildAI.net"@
                || r.relays()[i].url@ == "https://rpc.payload.de"@)) by {
            lemma_default_relays_unsigned(i);
        }
        r
    }

    /// One more relay, at `url`, named by its URL and signed.
    pub fn with_relay(self, url: &str) -> (r: Self)
        ensures
            r.relays().len() == self.relays().len() + 1,
            forall|i: int| 0 <= i < self.relays().len() ==> r.relays()[i] == self.relays()[i],
            relay_for(r.relays()[self.relays().len() as int], url@, false),
    {
        let mut relays = self.relays;
        relays.push(relay(url, true));
        RelayPlan { relays }
    }

    /// How many relays there are.
    pub fn len(&self) -> (r: usize)
        ensures
            r == self.relays().len(),
    {
        self.relays.len()
    }

    /// The relay at position `i`.
    pub fn get(&self, i: usize) -> (r: &RelaySpec)
        requires
            i < self.relays().len(),
        ensures
            *r == self.relays()[i as int],
    {
        &self.relays[i]
    }
}

} // verus!
