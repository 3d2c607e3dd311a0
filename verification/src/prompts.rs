//! The prompts handed to the text-generation backend, assembled around the
//! caller's values.

use vstd::prelude::*;
use vstd::string::*;

verus! {

/// The request for a minimal generated program; handed to the backend as is.
pub const CODE_PROMPT_ADD: &'static str = "Write a minimal Rust program that defines a function `add(a: i32, b: i32) -> i32` returning their sum, and a `main` that calls `add(2, 3)` and prints the result. Output only raw Rust code: no markdown fences, no backticks, no language tags, no explanation.";

/// The request for an opening greeting; handed to the backend as is.
pub const PEER_GREETING_PROMPT: &'static str = "Generate a brief, friendly greeting to start a conversation with other AI agents. Keep it under 20 words. Be warm and inviting.";

/// The prompt asking the backend to describe fetched weather data.
pub fn weather_summary_prompt(weather: &str) -> (r: String)
    ensures
        r@ == "Based on this weather data: "@ + weather@
            + "\n\nDescribe the weather in one short sentence - accurately based on the data."@,
{
    let mut out = String::from_str("Based on this weather data: ");
    out.append(weather);
    out.append("\n\nDescribe the weather in one short sentence - accurately based on the data.");
    proof {
        assert(out@ =~= "Based on this weather data: "@ + weather@
            + "\n\nDescribe the weather in one short sentence - accurately based on the data."@);
    }
    out
}

/// The prompt asking the backend to answer a peer's message: it names our
/// identity, the peer's identity, and the received content.
pub fn peer_response_prompt(agent_id: &str, peer_id: &str, content: &str) -> (r: String)
    ensures
        r@ == peer_response_prompt_view(agent_id@, peer_id@, content@),
{
    let mut out = String::from_str("You are an AI agent named ");
    out.append(agent_id);
    out.append(". Another AI agent named ");
    out.append(peer_id);
    out.append(" just said: \"");
    out.append(content);
    out.append(
        "\"\n\nGenerate a brief, friendly response (under 25 words). Be conversational but concise. If this feels like a closing message, say a brief goodbye.",
    );
    proof {
        assert(out@ =~= peer_response_prompt_view(agent_id@, peer_id@, content@));
    }
    out
}

/// The abstract form of the peer-response prompt.
pub open spec fn peer_response_prompt_view(
    agent_id: Seq<char>,
    peer_id: Seq<char>,
    content: Seq<char>,
) -> Seq<char> {
    "You are an AI agent named "@ + agent_id + ". Another AI agent named "@ + peer_id
        + " just said: \""@ + content
        + "\"\n\nGenerate a brief, friendly response (under 25 words). Be conversational but concise. If this feels like a closing message, say a brief goodbye."@
}

} // verus!
