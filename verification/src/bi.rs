//! The SNB Business Intelligence reads over the loaded social graph.
//!
//! The graph holds persons, forums, posts and comments, tags and tag
//! classes, and places. Messages carry `day` (creation day number), `year`,
//! `len` (content length) and `content` (whether the text is present); tags,
//! tag classes and places carry `name`; persons carry `plid` (LDBC id).
//! Relationships: `hasCreator` from a person to each message it created,
//! `hasTag` from a message to its tags, `hasType` from a tag to its class,
//! `replyOf` from a comment to the message it answers, `knows` between
//! persons (one each way), `likes` from a person to a message, `isLocatedIn`
//! from a person to a city and `isPartOf` from a place to the enclosing one.

pub mod q1;
pub mod lookup;
pub mod q2;
pub mod q14;
pub mod q4;
pub mod q7;
pub mod q5;
pub mod q6;
pub mod interaction;
pub mod q16;
pub mod q8;
pub mod q18;
pub mod q9;
pub mod patterns;
pub mod q3;
pub mod q10;
pub mod q12;
