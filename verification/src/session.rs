//! The two sides of a session: what the server answers, what the client asks
//! and how far it trusts the answers.
//!
//! Nothing here reads or writes a stream. The server's answers are functions
//! of the request and the committed tree. The client is a state machine: the
//! caller carries out the action of the current state and reports how it went.

use crate::audit_proof::{
    leaf_proof_verifies, lemma_honest_leaf_proof_verifies, spec_proof_hashes, MerkleProof,
};
use crate::error::ProtocolError;
use crate::hasher::{digest_seqs, item_digest, Sha256Algorithm};
use crate::indices::{convert_indices, parse_indices};
use crate::items::{compute_leaves, hash_leaves, items_of};
use crate::recompute::{compare_roots, fold_root, root_after_update};
use crate::path::{ceil_log2, path_spec};
use crate::tree::{
    audit_path, compute_merkle_tree, merkle_root, some_index_out_of_range, MerkleTree,
};
use rand::Rng;
use vstd::pervasive::unreached;
use vstd::prelude::*;
use vstd::utf8::encode_utf8;

verus! {

/// The leaf digests of a message: the digest of each of its items, in order.
pub open spec fn message_leaves(message: Seq<char>) -> Seq<Seq<u8>> {
    let items = items_of(message);
    Seq::new(items.len(), |i: int| item_digest(items[i]))
}

/// The leaves of a tree at the given indices, in the order of the indices.
pub open spec fn selected_leaves(leaves: Seq<Seq<u8>>, leaf_indices: Seq<usize>) -> Seq<Seq<u8>> {
    Seq::new(leaf_indices.len(), |k: int| leaves[leaf_indices[k] as int])
}

/// Commits to a message: splits it into items, hashes them and builds the
/// tree over the digests.
pub fn commit_message(message: &String) -> (tree: MerkleTree)
    ensures
        tree@ == message_leaves(message@),
{
    let items = compute_leaves(message);
    let hashed = hash_leaves(&items);
    let tree = compute_merkle_tree(&hashed);
    tree
}

/// Answers a request for a proof: the leaves at the requested indices, in the
/// order of the request, and the audit proof for them.
///
/// Fails with `ParseError` when the request does not spell indices, and with
/// `IndexOutOfRange` when it does and one of them is not below the leaf count.
pub fn answer_proof_request(tree: &MerkleTree, request: &String) -> (answer: Result<
    (Vec<[u8; 32]>, MerkleProof),
    ProtocolError,
>)
    ensures
        match parse_indices(encode_utf8(request@)) {
            None => answer == Err::<(Vec<[u8; 32]>, MerkleProof), ProtocolError>(
                ProtocolError::ParseError,
            ),
            Some(leaf_indices) => if some_index_out_of_range(leaf_indices, tree@.len()) {
                answer == Err::<(Vec<[u8; 32]>, MerkleProof), ProtocolError>(
                    ProtocolError::IndexOutOfRange,
                )
            } else {
                &&& answer is Ok
                &&& digest_seqs(answer->Ok_0.0@) == selected_leaves(tree@, leaf_indices)
                &&& answer->Ok_0.1@ == spec_proof_hashes(tree@, leaf_indices)
            },
        },
{
    let leaf_indices = match convert_indices(request) {
        Ok(leaf_indices) => leaf_indices,
        Err(error) => {
            return Err(error);
        },
    };
    let generated = match tree.prove(leaf_indices.as_slice()) {
        Ok(generated) => generated,
        Err(error) => {
            return Err(error);
        },
    };
    let leaves = tree.leaves();
    let mut selected: Vec<[u8; 32]> = Vec::new();
    let mut k: usize = 0;
    while k < leaf_indices.len()
        invariant
            k <= leaf_indices@.len(),
            digest_seqs(leaves@) == tree@,
            !some_index_out_of_range(leaf_indices@, tree@.len()),
            selected@.len() == k,
            forall|j: int| 0 <= j < k ==> selected@[j]@ == tree@[leaf_indices@[j] as int],
        decreases leaf_indices@.len() - k,
    {
        let index = leaf_indices[k];
        selected.push(leaves[index]);
        k = k + 1;
    }
    Ok((selected, generated))
}

/// The server's side of one session: the tree over the data that the client
/// of this session submitted. Every session owns its tree, and nothing is
/// shared between sessions.
pub struct ServerSession {
    tree: MerkleTree,
}

impl View for ServerSession {
    type V = Seq<Seq<u8>>;

    /// The leaf digests that the session is committed to.
    closed spec fn view(&self) -> Seq<Seq<u8>> {
        self.tree@
    }
}

impl ServerSession {
    #[verifier::type_invariant]
    spec fn holds_a_leaf(self) -> bool {
        self.tree@.len() >= 1
    }

    /// Opens a session on the message that the client submits. Fails with
    /// `ParseError` exactly when the message holds no item, as a blank or an
    /// empty message does: there is nothing then to commit to.
    pub fn open(message: &String) -> (opened: Result<ServerSession, ProtocolError>)
        ensures
            opened is Ok <==> message_leaves(message@).len() >= 1,
            opened is Ok ==> opened->Ok_0@ == message_leaves(message@),
            opened is Err ==> opened->Err_0 == ProtocolError::ParseError,
    {
        let tree = commit_message(message);
        if tree.leaves_len() == 0 {
            Err(ProtocolError::ParseError)
        } else {
            Ok(ServerSession { tree })
        }
    }

    /// The committed tree.
    pub fn tree(&self) -> (tree: &MerkleTree)
        ensures
            tree@ == self@,
    {
        &self.tree
    }

    /// The root to send to the client. A session always has one, since it
    /// holds at least one leaf.
    pub fn root(&self) -> (root: [u8; 32])
        ensures
            self@.len() >= 1,
            root@ == merkle_root(self@),
    {
        proof {
            use_type_invariant(self);
        }
        match self.tree.root() {
            Some(root) => root,
            None => unreached(),
        }
    }

    /// Answers a request for the proof of several leaves, as
    /// [`answer_proof_request`] does on the session's tree.
    pub fn prove_leaves(&self, request: &String) -> (answer: Result<
        (Vec<[u8; 32]>, MerkleProof),
        ProtocolError,
    >)
        ensures
            match parse_indices(encode_utf8(request@)) {
                None => answer == Err::<(Vec<[u8; 32]>, MerkleProof), ProtocolError>(
                    ProtocolError::ParseError,
                ),
                Some(leaf_indices) => if some_index_out_of_range(leaf_indices, self@.len()) {
                    answer == Err::<(Vec<[u8; 32]>, MerkleProof), ProtocolError>(
                        ProtocolError::IndexOutOfRange,
                    )
                } else {
                    &&& answer is Ok
                    &&& digest_seqs(answer->Ok_0.0@) == selected_leaves(self@, leaf_indices)
                    &&& answer->Ok_0.1@ == spec_proof_hashes(self@, leaf_indices)
                },
            },
    {
        answer_proof_request(&self.tree, request)
    }

    /// Answers the request that precedes an update: the audit proof for the
    /// leaf at `index`, which holds the audit path of that leaf, and the leaf.
    /// The proof verifies for the leaf against the root of the session. Fails
    /// with `IndexOutOfRange` exactly when `index` is not below the leaf count.
    pub fn prove_leaf(&self, index: usize) -> (answer: Result<
        (MerkleProof, [u8; 32]),
        ProtocolError,
    >)
        ensures
            answer is Ok <==> index < self@.len(),
            answer is Ok ==> answer->Ok_0.0@ == audit_path(self@, index as nat)
                && answer->Ok_0.0@ == spec_proof_hashes(self@, seq![index]) && answer->Ok_0.1@
                == self@[index as int],
            answer is Ok ==> leaf_proof_verifies(
                answer->Ok_0.0@,
                merkle_root(self@),
                index as nat,
                answer->Ok_0.1@,
                self@.len(),
            ),
            answer is Err ==> answer->Err_0 == ProtocolError::IndexOutOfRange,
    {
        let mut leaf_indices: Vec<usize> = Vec::new();
        leaf_indices.push(index);
        match self.tree.prove(leaf_indices.as_slice()) {
            Ok(generated) => {
                assert(index < self@.len()) by {
                    if index >= self@.len() {
                        assert(leaf_indices@[0] >= self@.len());
                    }
                }
                let leaves = self.tree.leaves();
                proof {
                    lemma_honest_leaf_proof_verifies(self@, index as nat);
                }
                Ok((generated, leaves[index]))
            },
            Err(error) => {
                Err(error)
            },
        }
    }

    /// Puts a new value in the place of the leaf at `index`, rebuilds the tree
    /// and gives the new root. Fails with `IndexOutOfRange` exactly when
    /// `index` is not below the leaf count, and then changes nothing.
    pub fn apply_update(&mut self, index: usize, new_value: &String) -> (updated: Result<
        [u8; 32],
        ProtocolError,
    >)
        ensures
            updated is Ok <==> index < old(self)@.len(),
            updated is Ok ==> final(self)@ == old(self)@.update(
                index as int,
                item_digest(new_value@),
            ) && updated->Ok_0@ == merkle_root(final(self)@),
            updated is Err ==> updated->Err_0 == ProtocolError::IndexOutOfRange && final(self)@
                == old(self)@,
    {
        let new_leaf = Sha256Algorithm::hash(new_value.as_str().as_bytes());
        match self.tree.replace_leaf(index, new_leaf) {
            Ok(tree) => {
                self.tree = tree;
                Ok(self.root())
            },
            Err(error) => Err(error),
        }
    }
}

/// Calls `Rng::gen_range` of the `rand` crate on the thread's generator, with
/// the range from 0 up to, not including, `bound`. Trusted: the number drawn
/// lies in that range.
#[verifier::external_body]
fn random_below(bound: usize) -> (drawn: usize)
    requires
        bound > 0,
    ensures
        drawn < bound,
{
    rand::thread_rng().gen_range(0..bound)
}

/// The pair of neighbouring indices that starts at `first`.
pub fn adjacent_indices(first: usize) -> (indices: Vec<usize>)
    requires
        first < usize::MAX,
    ensures
        indices@ == seq![first, (first + 1) as usize],
{
    let mut indices: Vec<usize> = Vec::new();
    indices.push(first);
    indices.push(first + 1);
    indices
}

/// Draws the pair of neighbouring leaves to challenge: the first index is any
/// of those below `len_message - 2`.
pub fn compute_random_index(len_message: usize) -> (indices: Vec<usize>)
    requires
        len_message >= 3,
    ensures
        indices@.len() == 2,
        indices@[0] < len_message - 2,
        indices@[1] == indices@[0] + 1,
{
    let first = random_below(len_message - 2);
    adjacent_indices(first)
}

/// Checks the root that the server declares after an update against the root
/// that the client folds from the new value and the digests of the proof it
/// holds for that leaf. Fails with `ProofVerificationFailure` where the proof
/// holds more digests than the tree is high, and else with
/// `RootMismatchFailure` where the two roots differ.
pub fn check_new_root(
    declared_root: &[u8; 32],
    new_leaf_data: &String,
    proof_hashes: &[[u8; 32]],
    num_leaves: usize,
    leaf_num: usize,
) -> (checked: Result<(), ProtocolError>)
    ensures
        checked is Ok <==> proof_hashes@.len() <= ceil_log2(num_leaves as nat) && declared_root@
            == fold_root(
            item_digest(new_leaf_data@),
            digest_seqs(proof_hashes@),
            path_spec(num_leaves as nat, leaf_num as nat),
        ),
        checked is Err ==> checked->Err_0 == (if proof_hashes@.len() <= ceil_log2(
            num_leaves as nat,
        ) {
            ProtocolError::RootMismatchFailure
        } else {
            ProtocolError::ProofVerificationFailure
        }),
{
    match root_after_update(new_leaf_data, proof_hashes, num_leaves, leaf_num) {
        Ok(computed) => {
            if compare_roots(declared_root, &computed) {
                Ok(())
            } else {
                Err(ProtocolError::RootMismatchFailure)
            }
        },
        Err(error) => Err(error),
    }
}

/// Where the client stands.
#[derive(Debug, Clone, Copy, PartialEq, Eq, Structural)]
pub enum ClientState {
    /// The data has not been submitted yet.
    Init,
    /// The data is with the server; its root is awaited.
    AwaitRoot,
    /// The root is known; the leaves and the proof for the chosen pair are
    /// awaited and then checked.
    AwaitInitialProof,
    /// The server has shown that it holds the chosen leaves.
    Verified,
    /// The index of the leaf to change is about to be sent.
    RequestUpdateProof,
    /// The old leaf and its proof are awaited and then checked.
    AwaitOldProof,
    /// The old leaf is authentic; the digests of its proof are kept.
    OldProofVerified,
    /// The new value is about to be sent.
    SendNewValue,
    /// The new root is awaited.
    AwaitNewRoot,
    /// The client folds its own root and compares.
    RecomputeRoot,
    /// The roots agree: the update is accepted.
    Done,
    /// The session is over, for the reason given.
    Aborted(ProtocolError),
}

/// What the caller reports after an action.
#[derive(Debug, Clone, Copy, PartialEq, Eq, Structural)]
pub enum ClientEvent {
    /// The message of the state was sent or received.
    Completed,
    /// The check of the state came out: `true` where the proof verified or
    /// the roots agree.
    Checked(bool),
    /// Reading, writing or decoding failed.
    Failed(ProtocolError),
}

/// What the caller is to do next.
#[derive(Debug, Clone, Copy, PartialEq, Eq, Structural)]
pub enum ClientAction {
    /// Send the data.
    SubmitData,
    /// Receive the root.
    ReceiveRoot,
    /// Send the chosen indices, receive the leaves and the proof, verify.
    CheckInitialProof,
    /// Go on to the update.
    Proceed,
    /// Send the index of the leaf to change.
    RequestOldProof,
    /// Receive the old leaf and its proof, verify.
    CheckOldProof,
    /// Send the new value.
    SubmitNewValue,
    /// Receive the new root.
    ReceiveNewRoot,
    /// Fold the root from the new value and the kept digests, compare.
    CompareRoots,
    /// Nothing: the session is over.
    Stop,
}

/// Whether the session is over.
pub open spec fn is_terminal(state: ClientState) -> bool {
    state is Done || state is Aborted
}

/// Whether the state ends in a check.
pub open spec fn is_checking(state: ClientState) -> bool {
    state is AwaitInitialProof || state is AwaitOldProof || state is RecomputeRoot
}

/// The failure that a negative check means in a state.
pub open spec fn failure_of(state: ClientState) -> ProtocolError {
    if state is RecomputeRoot {
        ProtocolError::RootMismatchFailure
    } else {
        ProtocolError::ProofVerificationFailure
    }
}

/// The state that follows when the message of `state` went through.
pub open spec fn after_completion(state: ClientState) -> ClientState {
    match state {
        ClientState::Init => ClientState::AwaitRoot,
        ClientState::AwaitRoot => ClientState::AwaitInitialProof,
        ClientState::Verified => ClientState::RequestUpdateProof,
        ClientState::RequestUpdateProof => ClientState::AwaitOldProof,
        ClientState::OldProofVerified => ClientState::SendNewValue,
        ClientState::SendNewValue => ClientState::AwaitNewRoot,
        ClientState::AwaitNewRoot => ClientState::RecomputeRoot,
        _ => state,
    }
}

/// The state that follows when the check of `state` was passed.
pub open spec fn after_success(state: ClientState) -> ClientState {
    match state {
        ClientState::AwaitInitialProof => ClientState::Verified,
        ClientState::AwaitOldProof => ClientState::OldProofVerified,
        ClientState::RecomputeRoot => ClientState::Done,
        _ => state,
    }
}

/// The transition rule. A finished session stays as it is. A failure ends
/// the session. A check that fails ends it too; one that is passed, and a
/// message that went through, move the session one state on. An event that
/// the state does not wait for changes nothing.
pub open spec fn next_state(state: ClientState, event: ClientEvent) -> ClientState {
    if is_terminal(state) {
        state
    } else {
        match event {
            ClientEvent::Failed(error) => ClientState::Aborted(error),
            ClientEvent::Completed => after_completion(state),
            ClientEvent::Checked(passed) => if !is_checking(state) {
                state
            } else if passed {
                after_success(state)
            } else {
                ClientState::Aborted(failure_of(state))
            },
        }
    }
}

/// The action that belongs to a state.
pub open spec fn action_in(state: ClientState) -> ClientAction {
    match state {
        ClientState::Init => ClientAction::SubmitData,
        ClientState::AwaitRoot => ClientAction::ReceiveRoot,
        ClientState::AwaitInitialProof => ClientAction::CheckInitialProof,
        ClientState::Verified => ClientAction::Proceed,
        ClientState::RequestUpdateProof => ClientAction::RequestOldProof,
        ClientState::AwaitOldProof => ClientAction::CheckOldProof,
        ClientState::OldProofVerified => ClientAction::Proceed,
        ClientState::SendNewValue => ClientAction::SubmitNewValue,
        ClientState::AwaitNewRoot => ClientAction::ReceiveNewRoot,
        ClientState::RecomputeRoot => ClientAction::CompareRoots,
        ClientState::Done => ClientAction::Stop,
        ClientState::Aborted(_) => ClientAction::Stop,
    }
}

/// The action with which a session starts.
pub fn first_action() -> (action: ClientAction)
    ensures
        action == action_in(ClientState::Init),
{
    ClientAction::SubmitData
}

/// Moves the session on by one event, and says what to do next.
pub fn client_step(state: ClientState, event: ClientEvent) -> (step: (ClientState, ClientAction))
    ensures
        step.0 == next_state(state, event),
        step.1 == action_in(step.0),
{
    let next = match state {
        ClientState::Done => state,
        ClientState::Aborted(_) => state,
        _ => match event {
            ClientEvent::Failed(error) => ClientState::Aborted(error),
            ClientEvent::Completed => match state {
                ClientState::Init => ClientState::AwaitRoot,
                ClientState::AwaitRoot => ClientState::AwaitInitialProof,
                ClientState::Verified => ClientState::RequestUpdateProof,
                ClientState::RequestUpdateProof => ClientState::AwaitOldProof,
                ClientState::OldProofVerified => ClientState::SendNewValue,
                ClientState::SendNewValue => ClientState::AwaitNewRoot,
                ClientState::AwaitNewRoot => ClientState::RecomputeRoot,
                _ => state,
            },
            ClientEvent::Checked(passed) => match state {
                ClientState::AwaitInitialProof => if passed {
                    ClientState::Verified
                } else {
                    ClientState::Aborted(ProtocolError::ProofVerificationFailure)
                },
                ClientState::AwaitOldProof => if passed {
                    ClientState::OldProofVerified
                } else {
                    ClientState::Aborted(ProtocolError::ProofVerificationFailure)
                },
                ClientState::RecomputeRoot => if passed {
                    ClientState::Done
                } else {
                    ClientState::Aborted(ProtocolError::RootMismatchFailure)
                },
                _ => state,
            },
        },
    };
    let action = match next {
        ClientState::Init => ClientAction::SubmitData,
        ClientState::AwaitRoot => ClientAction::ReceiveRoot,
        ClientState::AwaitInitialProof => ClientAction::CheckInitialProof,
        ClientState::Verified => ClientAction::Proceed,
        ClientState::RequestUpdateProof => ClientAction::RequestOldProof,
        ClientState::AwaitOldProof => ClientAction::CheckOldProof,
        ClientState::OldProofVerified => ClientAction::Proceed,
        ClientState::SendNewValue => ClientAction::SubmitNewValue,
        ClientState::AwaitNewRoot => ClientAction::ReceiveNewRoot,
        ClientState::RecomputeRoot => ClientAction::CompareRoots,
        ClientState::Done => ClientAction::Stop,
        ClientState::Aborted(_) => ClientAction::Stop,
    };
    (next, action)
}

/// The rules of a session. A finished session never moves again and asks for
/// nothing more. Every failed check ends the session with the failure of its
/// state, and every reported failure ends it with that failure. The update is
/// accepted only by a passed comparison of the roots.
pub proof fn lemma_session_rules(state: ClientState, event: ClientEvent)
    ensures
        is_terminal(state) ==> next_state(state, event) == state && action_in(state)
            == ClientAction::Stop,
        !is_terminal(state) && is_checking(state) && event == ClientEvent::Checked(false)
            ==> next_state(state, event) == ClientState::Aborted(failure_of(state)),
        !is_terminal(state) && event is Failed ==> next_state(state, event)
            == ClientState::Aborted(event->Failed_0),
        next_state(state, event) is Done ==> state is Done || (state is RecomputeRoot && event
            == ClientEvent::Checked(true)),
{
}

} // verus!
