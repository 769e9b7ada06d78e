//! Chat messages, and the prompt that grounds an answer in retrieved passages.

use vstd::prelude::*;
use crate::text::{decimal, decimal_string};

verus! {

/// Who speaks a message.
#[derive(PartialEq, Eq, Structural, Clone, Copy)]
pub enum ChatRole {
    System,
    User,
    Assistant,
}

/// One message of a conversation.
pub struct ChatMessage {
    pub role: ChatRole,
    pub content: String,
}

/// The block for passage `i` (counted from zero) taken from document `name`.
pub open spec fn source_block(i: int, name: Seq<char>, content: Seq<char>) -> Seq<char> {
    "[Source "@ + decimal((i + 1) as nat) + ": "@ + name + "]\n"@ + content
}

/// The blocks of all passages `(document name, text)`, separated by blank lines.
pub open spec fn context_text(sources: Seq<(Seq<char>, Seq<char>)>) -> Seq<char>
    decreases sources.len(),
{
    if sources.len() == 0 {
        Seq::empty()
    } else {
        let k = sources.len() - 1;
        let block = source_block(k, sources[k].0, sources[k].1);
        if k == 0 {
            block
        } else {
            context_text(sources.drop_last()) + "\n\n"@ + block
        }
    }
}

/// Passages as values.
pub open spec fn sources_view(v: Seq<(String, String)>) -> Seq<(Seq<char>, Seq<char>)> {
    v.map_values(|p: (String, String)| (p.0@, p.1@))
}

/// The opening of the system message, before the passages.
pub open spec fn system_preamble() -> Seq<char> {
    "You are a helpful assistant. Use the following context to answer the user's question.\n\nContext:\n"@
}

/// Numbers the passages `(document name, text)` from one and joins them.
pub fn build_context(sources: &Vec<(String, String)>) -> (r: String)
    ensures
        r@ == context_text(sources_view(sources@)),
{
    let mut r = String::new();
    let mut i: usize = 0;
    while i < sources.len()
        invariant
            i <= sources.len(),
            r@ == context_text(sources_view(sources@).take(i as int)),
        decreases sources.len() - i,
    {
        let ghost prev = r@;
        proof {
            assert(sources_view(sources@).take(i + 1).drop_last() =~= sources_view(sources@).take(i as int));
        }
        if i > 0 {
            r.append("\n\n");
        }
        r.append("[Source ");
        let num = decimal_string(i as u64 + 1);
        r.append(num.as_str());
        r.append(": ");
        r.append(sources[i].0.as_str());
        r.append("]\n");
        r.append(sources[i].1.as_str());
        proof {
            let blk = source_block(i as int, sources@[i as int].0@, sources@[i as int].1@);
            if i > 0 {
                assert(r@ =~= prev + "\n\n"@ + blk);
            } else {
                assert(prev == Seq::<char>::empty());
                assert(r@ =~= blk);
            }
        }
        i = i + 1;
    }
    proof {
        assert(sources_view(sources@).take(sources.len() as int) =~= sources_view(sources@));
    }
    r
}

/// The two messages of a grounded question: a system message holding the
/// numbered passages, then the user's query.
pub fn rag_messages(sources: &Vec<(String, String)>, query: String) -> (r: Vec<ChatMessage>)
    ensures
        r.len() == 2,
        r@[0].role == ChatRole::System,
        r@[0].content@ == system_preamble() + context_text(sources_view(sources@)),
        r@[1].role == ChatRole::User,
        r@[1].content@ == query@,
{
    let mut system = String::from_str(
        "You are a helpful assistant. Use the following context to answer the user's question.\n\nContext:\n",
    );
    let context = build_context(sources);
    system.append(context.as_str());
    let mut r: Vec<ChatMessage> = Vec::new();
    r.push(ChatMessage { role: ChatRole::System, content: system });
    r.push(ChatMessage { role: ChatRole::User, content: query });
    r
}

} // verus!
