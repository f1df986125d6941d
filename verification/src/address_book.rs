//! Address book. Keeps track of known peers. On disk it is a text with one
//! socket address per line; reading and writing the file is left to the
//! caller, who hands over what the file holds and gets what it is to hold.

use crate::net::SocketAddr;
use crate::text::{is_digit, law_one_address, law_text_spells, parse, render, spells, text_of};
use vstd::prelude::*;
use vstd::slice::slice_subrange;

verus! {

/// The byte that ends a line.
pub const NEWLINE: u8 = 10;

/// The carriage return, which may stand before the byte that ends a line.
pub const RETURN: u8 = 13;

/// The port of the main network.
pub const MAINNET_PORT: u16 = 8333;

/// The network to take part in.
#[derive(Clone, Copy, Debug, PartialEq, Eq, Structural)]
pub enum Network {
    /// The production network.
    Mainnet,
    /// The network for tests.
    Testnet,
    /// A network of one's own.
    Regtest,
}

/// A line of an address book that spells no socket address.
#[derive(Clone, Copy, Debug, PartialEq, Eq, Structural)]
pub struct Malformed {
    /// The place of the line, counted from zero.
    pub line: usize,
}

/// The known peers, in order.
#[derive(Debug, PartialEq)]
pub struct AddressBook {
    /// The addresses of the peers.
    pub addrs: Vec<SocketAddr>,
}

impl View for AddressBook {
    type V = Seq<SocketAddr>;

    open spec fn view(&self) -> Seq<SocketAddr> {
        self.addrs@
    }
}

/// Whether the line spells a socket address.
pub open spec fn is_address(line: Seq<u8>) -> bool {
    exists|addr: SocketAddr| spells(line, addr)
}

/// The length of the first line of the text: the place of the first byte
/// that ends a line, or the length of the text where there is none.
pub open spec fn line_end(text: Seq<u8>) -> int
    decreases text.len(),
{
    if text.len() == 0 || text[0] == NEWLINE {
        0
    } else {
        1 + line_end(text.drop_first())
    }
}

/// The line without the carriage return at its end, if it has one.
pub open spec fn without_return(line: Seq<u8>) -> Seq<u8> {
    if line.len() > 0 && line.last() == RETURN {
        line.drop_last()
    } else {
        line
    }
}

/// The lines of the text. A line ends with a newline, which is no part of
/// it, and neither is a carriage return before the newline. What follows
/// the last newline is a line too, unless it is empty.
pub open spec fn lines(text: Seq<u8>) -> Seq<Seq<u8>>
    decreases text.len(),
{
    if text.len() == 0 {
        Seq::empty()
    } else {
        let end = line_end(text);
        if 0 <= end < text.len() {
            seq![without_return(text.take(end))] + lines(text.skip(end + 1))
        } else {
            seq![text]
        }
    }
}

/// The text of an address book: for each address its text and a newline.
pub open spec fn rendered(addrs: Seq<SocketAddr>) -> Seq<u8>
    decreases addrs.len(),
{
    if addrs.len() == 0 {
        Seq::empty()
    } else {
        rendered(addrs.drop_last()) + text_of(addrs.last()) + seq![NEWLINE]
    }
}

/// The addresses that the first `n` seeds gave, one seed after another; a
/// seed that failed gave none.
pub open spec fn joined<E>(seeds: Seq<Result<Vec<SocketAddr>, E>>, n: int) -> Seq<SocketAddr>
    decreases n,
{
    if n <= 0 {
        Seq::empty()
    } else {
        joined(seeds, n - 1) + match seeds[n - 1] {
            Ok(found) => found@,
            Err(_) => Seq::empty(),
        }
    }
}

/// The hosts that know peers of the main network.
pub open spec fn mainnet_seeds() -> Seq<&'static str> {
    seq![
        "seed.bitcoin.sipa.be",
        "dnsseed.bluematt.me",
        "dnsseed.bitcoin.dashjr.org",
        "seed.bitcoinstats.com",
        "seed.bitcoin.jonasschnelli.ch",
        "seed.btc.petertodd.org",
        "seed.bitcoin.sprovoost.nl",
        "dnsseed.emzy.de",
    ]
}

/// The first line ends at the first newline.
pub proof fn lemma_line_end(text: Seq<u8>, end: int)
    requires
        0 <= end <= text.len(),
        forall|i: int| 0 <= i < end ==> text[i] != NEWLINE,
        end == text.len() || text[end] == NEWLINE,
    ensures
        line_end(text) == end,
    decreases end,
{
    if end > 0 {
        let rest = text.drop_first();
        assert forall|i: int| 0 <= i < end - 1 implies rest[i] != NEWLINE by {
            assert(rest[i] == text[i + 1]);
        }
        lemma_line_end(rest, end - 1);
    }
}

/// The line that starts at `at` and goes up to `end`, where a newline
/// stands or the text ends, is the first of the lines from `at` on; the
/// others are the lines of what follows the newline.
proof fn lemma_next_line(text: Seq<u8>, at: int, end: int)
    requires
        0 <= at <= end <= text.len(),
        at < text.len(),
        forall|i: int| at <= i < end ==> text[i] != NEWLINE,
        end == text.len() || text[end] == NEWLINE,
    ensures
        end < text.len() ==> lines(text.skip(at)) == seq![
            without_return(text.subrange(at, end)),
        ] + lines(text.skip(end + 1)),
        end == text.len() ==> lines(text.skip(at)) == seq![text.subrange(at, end)],
{
    let rest = text.skip(at);
    assert forall|i: int| 0 <= i < end - at implies rest[i] != NEWLINE by {
        assert(rest[i] == text[at + i]);
    }
    lemma_line_end(rest, end - at);
    if end < text.len() {
        assert(rest.take(end - at) =~= text.subrange(at, end));
        assert(rest.skip(end - at + 1) =~= text.skip(end + 1));
    } else {
        assert(rest =~= text.subrange(at, end));
    }
}

/// The text of an address book begins with the text of its first address
/// and a newline.
proof fn lemma_rendered_front(addrs: Seq<SocketAddr>)
    requires
        addrs.len() > 0,
    ensures
        rendered(addrs) == text_of(addrs[0]) + seq![NEWLINE] + rendered(addrs.drop_first()),
    decreases addrs.len(),
{
    let init = addrs.drop_last();
    if init.len() == 0 {
        assert(addrs.drop_first() =~= Seq::<SocketAddr>::empty());
        assert(rendered(init) =~= Seq::<u8>::empty());
        assert(rendered(addrs.drop_first()) =~= Seq::<u8>::empty());
        assert(addrs.last() == addrs[0]);
        assert(rendered(addrs) =~= text_of(addrs[0]) + seq![NEWLINE] + rendered(
            addrs.drop_first(),
        ));
    } else {
        lemma_rendered_front(init);
        let tail = addrs.drop_first();
        assert(tail.drop_last() =~= init.drop_first());
        assert(tail.last() == addrs.last());
        assert(init[0] == addrs[0]);
        assert(rendered(addrs) =~= text_of(addrs[0]) + seq![NEWLINE] + rendered(tail));
    }
}

/// The lines of the text of an address book are the texts of its
/// addresses, in order.
pub proof fn lemma_lines_rendered(addrs: Seq<SocketAddr>)
    requires
        forall|i: int| 0 <= i < addrs.len() ==> (#[trigger] addrs[i]).wf(),
    ensures
        lines(rendered(addrs)) == addrs.map_values(|addr: SocketAddr| text_of(addr)),
    decreases addrs.len(),
{
    let texts = addrs.map_values(|addr: SocketAddr| text_of(addr));
    if addrs.len() == 0 {
        assert(lines(rendered(addrs)) =~= texts);
    } else {
        let first = text_of(addrs[0]);
        let tail = addrs.drop_first();
        let text = rendered(addrs);
        lemma_rendered_front(addrs);
        law_text_spells(addrs[0]);
        lemma_lines_rendered(tail);
        assert forall|i: int| 0 <= i < first.len() implies text[i] != NEWLINE by {
            assert(text[i] == first[i]);
        }
        assert(text[first.len() as int] == NEWLINE);
        lemma_line_end(text, first.len() as int);
        assert(text.take(first.len() as int) =~= first);
        assert(text.skip(first.len() as int + 1) =~= rendered(tail));
        assert(without_return(first) == first);
        assert(lines(text) =~= seq![first] + lines(rendered(tail)));
        assert(lines(text) =~= texts);
    }
}

/// What was saved is what is loaded. The text of an address book has one
/// line for each address, in order; the line spells that address and no
/// other. So whatever addresses are read from the lines of the text are the
/// addresses of the book.
pub proof fn law_save_then_load(addrs: Seq<SocketAddr>, loaded: Seq<SocketAddr>)
    requires
        forall|i: int| 0 <= i < addrs.len() ==> (#[trigger] addrs[i]).wf(),
        loaded.len() == lines(rendered(addrs)).len(),
        forall|i: int| 0 <= i < loaded.len() ==> spells(#[trigger] lines(rendered(addrs))[i], loaded[i]),
    ensures
        lines(rendered(addrs)).len() == addrs.len(),
        forall|i: int| 0 <= i < addrs.len() ==> spells(#[trigger] lines(rendered(addrs))[i], addrs[i]),
        forall|i: int| 0 <= i < addrs.len() ==> is_address(#[trigger] lines(rendered(addrs))[i]),
        loaded == addrs,
{
    lemma_lines_rendered(addrs);
    let all = lines(rendered(addrs));
    assert forall|i: int| 0 <= i < addrs.len() implies spells(#[trigger] all[i], addrs[i]) by {
        law_text_spells(addrs[i]);
    }
    assert forall|i: int| 0 <= i < addrs.len() implies loaded[i] == addrs[i] by {
        assert(spells(all[i], addrs[i]));
        assert(spells(all[i], loaded[i]));
        law_one_address(all[i], loaded[i], addrs[i]);
    }
    assert(loaded =~= addrs);
}

/// Every address book can be saved and loaded again: of the text of an
/// address book every line spells an address.
pub proof fn law_saved_is_well_formed(addrs: Seq<SocketAddr>)
    requires
        forall|i: int| 0 <= i < addrs.len() ==> (#[trigger] addrs[i]).wf(),
    ensures
        lines(rendered(addrs)).len() == addrs.len(),
        forall|i: int| 0 <= i < addrs.len() ==> is_address(#[trigger] lines(rendered(addrs))[i]),
{
    lemma_lines_rendered(addrs);
    assert forall|i: int| 0 <= i < addrs.len() implies is_address(
        #[trigger] lines(rendered(addrs))[i],
    ) by {
        law_text_spells(addrs[i]);
    }
}

impl AddressBook {
    /// The address book of the addresses that the seeds were resolved to,
    /// seed by seed; where a seed could not be resolved, the error of the
    /// first such seed.
    pub fn from<E>(seeds: Vec<Result<Vec<SocketAddr>, E>>) -> (book: Result<AddressBook, E>)
        ensures
            match book {
                Ok(book) => {
                    &&& forall|i: int| 0 <= i < seeds.len() ==> seeds[i] is Ok
                    &&& book@ == joined(seeds@, seeds.len() as int)
                },
                Err(e) => exists|k: int|
                    {
                        &&& 0 <= k < seeds.len()
                        &&& #[trigger] seeds[k] == Err::<Vec<SocketAddr>, E>(e)
                        &&& forall|j: int| 0 <= j < k ==> seeds[j] is Ok
                    },
            },
    {
        let ghost all = seeds@;
        let mut addrs: Vec<SocketAddr> = Vec::new();
        for seed in it: seeds.into_iter()
            invariant
                it.seq() == all,
                forall|j: int| 0 <= j < it.index() ==> all[j] is Ok,
                addrs@ == joined(all, it.index()),
        {
            match seed {
                Ok(mut found) => {
                    addrs.append(&mut found);
                },
                Err(e) => {
                    assert(all[it.index()] == Err::<Vec<SocketAddr>, E>(e));
                    return Err(e);
                },
            }
        }
        Ok(AddressBook { addrs })
    }

    /// The seeds from which to get the first peers of the network: the
    /// hosts to resolve, each with the port of the network. Only the main
    /// network has seeds.
    pub fn bootstrap(network: Network) -> (seeds: Vec<(&'static str, u16)>)
        requires
            network is Mainnet,
        ensures
            seeds@ == mainnet_seeds().map_values(|host: &'static str| (host, MAINNET_PORT)),
    {
        let mut seeds: Vec<(&'static str, u16)> = Vec::new();
        seeds.push(("seed.bitcoin.sipa.be", MAINNET_PORT));
        seeds.push(("dnsseed.bluematt.me", MAINNET_PORT));
        seeds.push(("dnsseed.bitcoin.dashjr.org", MAINNET_PORT));
        seeds.push(("seed.bitcoinstats.com", MAINNET_PORT));
        seeds.push(("seed.bitcoin.jonasschnelli.ch", MAINNET_PORT));
        seeds.push(("seed.btc.petertodd.org", MAINNET_PORT));
        seeds.push(("seed.bitcoin.sprovoost.nl", MAINNET_PORT));
        seeds.push(("dnsseed.emzy.de", MAINNET_PORT));
        proof {
            assert(seeds@ =~= mainnet_seeds().map_values(
                |host: &'static str| (host, MAINNET_PORT),
            ));
        }
        seeds
    }

    /// Read an address book from the text of its file: one socket address
    /// per line. The first line that spells no address fails the whole.
    pub fn load(text: &[u8]) -> (book: Result<AddressBook, Malformed>)
        ensures
            match book {
                Ok(book) => {
                    &&& book@.len() == lines(text@).len()
                    &&& forall|i: int|
                        0 <= i < book@.len() ==> spells(#[trigger] lines(text@)[i], book@[i])
                            && book@[i].wf()
                },
                Err(e) => {
                    &&& e.line < lines(text@).len()
                    &&& !is_address(lines(text@)[e.line as int])
                    &&& forall|j: int| 0 <= j < e.line ==> is_address(#[trigger] lines(text@)[j])
                },
            },
    {
        let mut addrs: Vec<SocketAddr> = Vec::new();
        let mut at: usize = 0;
        let ghost mut done: Seq<Seq<u8>> = Seq::empty();
        assert(text@.skip(0) =~= text@);
        while at < text.len()
            invariant
                at <= text.len(),
                addrs.len() <= at,
                lines(text@) == done + lines(text@.skip(at as int)),
                done.len() == addrs.len(),
                forall|i: int| 0 <= i < done.len() ==> spells(#[trigger] done[i], addrs@[i]),
                forall|i: int| 0 <= i < addrs.len() ==> (#[trigger] addrs@[i]).wf(),
            decreases text.len() - at,
        {
            let mut end = at;
            while end < text.len() && text[end] != NEWLINE
                invariant
                    at <= end <= text.len(),
                    forall|i: int| at <= i < end ==> text@[i] != NEWLINE,
                decreases text.len() - end,
            {
                end += 1;
            }
            let closed = end < text.len();
            let stop = if closed && end > at && text[end - 1] == RETURN {
                end - 1
            } else {
                end
            };
            let line = slice_subrange(text, at, stop);
            let next = if closed {
                end + 1
            } else {
                end
            };
            proof {
                lemma_next_line(text@, at as int, end as int);
                if closed {
                    let whole = text@.subrange(at as int, end as int);
                    if end > at {
                        assert(whole.last() == text@[end - 1]);
                        assert(whole.drop_last() =~= text@.subrange(at as int, end - 1));
                    }
                    assert(without_return(whole) =~= line@);
                } else {
                    assert(text@.skip(text.len() as int) =~= Seq::<u8>::empty());
                    assert(lines(text@.skip(next as int)) =~= Seq::<Seq<u8>>::empty());
                }
                assert(lines(text@.skip(at as int)) =~= seq![line@] + lines(
                    text@.skip(next as int),
                ));
                assert(lines(text@)[done.len() as int] == line@);
            }
            match parse(line) {
                Some(addr) => {
                    proof {
                        done = done.push(line@);
                    }
                    addrs.push(addr);
                },
                None => {
                    proof {
                        assert(lines(text@).len() > done.len());
                        assert(lines(text@)[addrs.len() as int] == line@);
                        assert forall|j: int| 0 <= j < done.len() implies is_address(
                            #[trigger] lines(text@)[j],
                        ) by {
                            assert(lines(text@)[j] == done[j]);
                            assert(spells(done[j], addrs@[j]));
                        }
                    }
                    return Err(Malformed { line: addrs.len() });
                },
            }
            at = next;
            proof {
                assert(lines(text@) =~= done + lines(text@.skip(at as int)));
            }
        }
        proof {
            assert(text@.skip(text.len() as int) =~= Seq::<u8>::empty());
            assert(lines(text@) =~= done);
        }
        Ok(AddressBook { addrs })
    }

    /// The text of the address book, for its file: one address per line.
    pub fn save(&self) -> (text: Vec<u8>)
        ensures
            text@ == rendered(self@),
    {
        let mut text: Vec<u8> = Vec::new();
        let mut i: usize = 0;
        assert(self@.take(0) =~= Seq::<SocketAddr>::empty());
        while i < self.addrs.len()
            invariant
                i <= self.addrs.len(),
                text@ == rendered(self@.take(i as int)),
            decreases self.addrs.len() - i,
        {
            render(&mut text, &self.addrs[i]);
            text.push(NEWLINE);
            proof {
                assert(self@.take(i + 1).drop_last() =~= self@.take(i as int));
                assert(self@.take(i + 1).last() == self@[i as int]);
            }
            i += 1;
        }
        proof {
            assert(self@.take(self@.len() as int) =~= self@);
        }
        text
    }
}

} // verus!
