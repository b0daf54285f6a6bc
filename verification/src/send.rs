//! Outbound protocol events: the fields each one puts on the wire,
//! ready to be joined with the delimiter and sent by the transport.
use vstd::prelude::*;
use crate::util::Direction;

verus! {

/// An event this client can emit, as the sequence of its wire fields.
pub trait SendCommandable {
    /// The fields the event stands for.
    spec fn spec_send(&self) -> Seq<Seq<char>>;

    /// Builds the wire fields, event name first.
    fn send(&self) -> (r: Vec<String>)
        ensures
            r.deep_view() == self.spec_send(),
    ;
}

/// The credentials handed over in answer to the server's greeting.
pub struct Join {
    pub username: String,
    pub password: String,
}

impl Join {
    pub fn new(username: String, password: String) -> (r: Self)
        ensures
            r.username == username,
            r.password == password,
    {
        Self { username, password }
    }
}

impl SendCommandable for Join {
    open spec fn spec_send(&self) -> Seq<Seq<char>> {
        seq![seq!['j', 'o', 'i', 'n'], self.username@, self.password@]
    }

    fn send(&self) -> (r: Vec<String>) {
        proof {
            reveal_strlit("join");
        }
        let mut r: Vec<String> = Vec::new();
        r.push("join".to_owned());
        r.push(self.username.clone());
        r.push(self.password.clone());
        proof {
            assert("join"@ =~= seq!['j', 'o', 'i', 'n']);
            assert(r.deep_view() =~= self.spec_send());
        }
        r
    }
}

/// The wire token of one direction.
pub open spec fn direction_token(d: Direction) -> Seq<char> {
    match d {
        Direction::UP => seq!['u', 'p'],
        Direction::DOWN => seq!['d', 'o', 'w', 'n'],
        Direction::LEFT => seq!['l', 'e', 'f', 't'],
        Direction::RIGHT => seq!['r', 'i', 'g', 'h', 't'],
    }
}

/// The move chosen for the current tick.
pub struct Move {
    pub direction: Direction,
}

impl SendCommandable for Move {
    open spec fn spec_send(&self) -> Seq<Seq<char>> {
        seq![seq!['m', 'o', 'v', 'e'], direction_token(self.direction)]
    }

    fn send(&self) -> (r: Vec<String>) {
        proof {
            reveal_strlit("move");
            reveal_strlit("up");
            reveal_strlit("down");
            reveal_strlit("left");
            reveal_strlit("right");
        }
        let dir = match self.direction {
            Direction::UP => "up",
            Direction::DOWN => "down",
            Direction::LEFT => "left",
            Direction::RIGHT => "right",
        }.to_owned();
        let mut r: Vec<String> = Vec::new();
        r.push("move".to_owned());
        r.push(dir);
        proof {
            assert("move"@ =~= seq!['m', 'o', 'v', 'e']);
            assert("up"@ =~= seq!['u', 'p']);
            assert("down"@ =~= seq!['d', 'o', 'w', 'n']);
            assert("left"@ =~= seq!['l', 'e', 'f', 't']);
            assert("right"@ =~= seq!['r', 'i', 'g', 'h', 't']);
            assert(r.deep_view() =~= self.spec_send());
        }
        r
    }
}

} // verus!
