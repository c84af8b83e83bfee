//! Names of requests and responses, as request logs print them.

use crate::message::{spec_type_byte, Message, MessageView};
use crate::message::{
    BROKER_HEARTBEAT, COMMIT, CREATE_TOPIC, C_REG, DESCRIBE_TOPIC, ECHO, FETCH, GET_CLUSTER, GET_LAG, GROUP_HEARTBEAT, HANDSHAKE,
    IDEMPOTENT_PRODUCE, JOIN_GROUP, LIST_TOPICS, PCM, PRODUCE, P_REG, REPLICATE, R_BROKER_HEARTBEAT, R_COMMIT,
    R_CREATE_TOPIC, R_C_REG, R_DESCRIBE_TOPIC, R_ECHO, R_ERROR, R_FETCH, R_GET_CLUSTER, R_GET_LAG, R_GROUP_HEARTBEAT,
    R_HANDSHAKE, R_JOIN_GROUP, R_LIST_TOPICS, R_NOT_LEADER, R_PCM, R_PRODUCE, R_P_REG, R_REPLICATE,
};
use vstd::prelude::*;

verus! {

/// The name of a message kind.
pub open spec fn spec_request_name(m: MessageView) -> Seq<char> {
    match m {
        MessageView::Echo(_) => "ECHO"@,
        MessageView::ProducerRegister(_) => "P_REG"@,
        MessageView::ConsumerRegister(_) => "C_REG"@,
        MessageView::Pcm(_) => "PCM"@,
        MessageView::Fetch(_) => "FETCH"@,
        MessageView::CommitOffset(_) => "COMMIT"@,
        MessageView::Produce(_) => "PRODUCE"@,
        MessageView::IdempotentProduce(_) => "IDEMPOTENT_PRODUCE"@,
        MessageView::CreateTopic(_) => "CREATE_TOPIC"@,
        MessageView::DescribeTopic(_) => "DESCRIBE_TOPIC"@,
        MessageView::ListTopics => "LIST_TOPICS"@,
        MessageView::GetLag(_) => "GET_LAG"@,
        MessageView::Replicate(_) => "REPLICATE"@,
        MessageView::GetCluster => "GET_CLUSTER"@,
        MessageView::BrokerHeartbeat(_) => "BROKER_HEARTBEAT"@,
        MessageView::JoinGroup(_) => "JOIN_GROUP"@,
        MessageView::GroupHeartbeat(_) => "GROUP_HEARTBEAT"@,
        MessageView::Handshake(_) => "HANDSHAKE"@,
        MessageView::REcho(_) => "R_ECHO"@,
        MessageView::RProducerRegister(_) => "R_P_REG"@,
        MessageView::RConsumerRegister(_) => "R_C_REG"@,
        MessageView::RPcm(_) => "R_PCM"@,
        MessageView::RFetch(_) => "R_FETCH"@,
        MessageView::RCommitOffset(_) => "R_COMMIT"@,
        MessageView::RProduce(_) => "R_PRODUCE"@,
        MessageView::RCreateTopic(_) => "R_CREATE_TOPIC"@,
        MessageView::RDescribeTopic(_) => "R_DESCRIBE_TOPIC"@,
        MessageView::RListTopics(_) => "R_LIST_TOPICS"@,
        MessageView::RGetLag(_) => "R_GET_LAG"@,
        MessageView::RReplicate(_) => "R_REPLICATE"@,
        MessageView::RGetCluster(_) => "R_GET_CLUSTER"@,
        MessageView::RNotLeader(_) => "R_NOT_LEADER"@,
        MessageView::RBrokerHeartbeat(_) => "R_BROKER_HEARTBEAT"@,
        MessageView::RJoinGroup(_) => "R_JOIN_GROUP"@,
        MessageView::RGroupHeartbeat(_, _) => "R_GROUP_HEARTBEAT"@,
        MessageView::RHandshake(_, _) => "R_HANDSHAKE"@,
        MessageView::RError(_, _) => "R_ERROR"@,
    }
}

/// The name a message kind with type byte `b` is logged under.
pub open spec fn name_of_type(b: u8) -> Seq<char> {
    if b == ECHO {
        "ECHO"@
    } else if b == P_REG {
        "P_REG"@
    } else if b == C_REG {
        "C_REG"@
    } else if b == PCM {
        "PCM"@
    } else if b == FETCH {
        "FETCH"@
    } else if b == COMMIT {
        "COMMIT"@
    } else if b == PRODUCE {
        "PRODUCE"@
    } else if b == IDEMPOTENT_PRODUCE {
        "IDEMPOTENT_PRODUCE"@
    } else if b == CREATE_TOPIC {
        "CREATE_TOPIC"@
    } else if b == DESCRIBE_TOPIC {
        "DESCRIBE_TOPIC"@
    } else if b == LIST_TOPICS {
        "LIST_TOPICS"@
    } else if b == GET_LAG {
        "GET_LAG"@
    } else if b == REPLICATE {
        "REPLICATE"@
    } else if b == GET_CLUSTER {
        "GET_CLUSTER"@
    } else if b == BROKER_HEARTBEAT {
        "BROKER_HEARTBEAT"@
    } else if b == JOIN_GROUP {
        "JOIN_GROUP"@
    } else if b == GROUP_HEARTBEAT {
        "GROUP_HEARTBEAT"@
    } else if b == HANDSHAKE {
        "HANDSHAKE"@
    } else if b == R_ECHO {
        "R_ECHO"@
    } else if b == R_P_REG {
        "R_P_REG"@
    } else if b == R_C_REG {
        "R_C_REG"@
    } else if b == R_PCM {
        "R_PCM"@
    } else if b == R_FETCH {
        "R_FETCH"@
    } else if b == R_COMMIT {
        "R_COMMIT"@
    } else if b == R_PRODUCE {
        "R_PRODUCE"@
    } else if b == R_CREATE_TOPIC {
        "R_CREATE_TOPIC"@
    } else if b == R_DESCRIBE_TOPIC {
        "R_DESCRIBE_TOPIC"@
    } else if b == R_LIST_TOPICS {
        "R_LIST_TOPICS"@
    } else if b == R_GET_LAG {
        "R_GET_LAG"@
    } else if b == R_REPLICATE {
        "R_REPLICATE"@
    } else if b == R_GET_CLUSTER {
        "R_GET_CLUSTER"@
    } else if b == R_NOT_LEADER {
        "R_NOT_LEADER"@
    } else if b == R_BROKER_HEARTBEAT {
        "R_BROKER_HEARTBEAT"@
    } else if b == R_JOIN_GROUP {
        "R_JOIN_GROUP"@
    } else if b == R_GROUP_HEARTBEAT {
        "R_GROUP_HEARTBEAT"@
    } else if b == R_HANDSHAKE {
        "R_HANDSHAKE"@
    } else if b == R_ERROR {
        "R_ERROR"@
    } else {
        Seq::empty()
    }
}

/// The type byte of the message kind logged under `name` (0 for no kind).
pub open spec fn type_of_name(name: Seq<char>) -> u8 {
    if name.len() == 3 {
        if name == "PCM"@ {
            PCM
        } else {
            0
        }
    } else if name.len() == 4 {
        if name == "ECHO"@ {
            ECHO
        } else {
            0
        }
    } else if name.len() == 5 {
        if name == "P_REG"@ {
            P_REG
        } else if name == "C_REG"@ {
            C_REG
        } else if name == "FETCH"@ {
            FETCH
        } else if name == "R_PCM"@ {
            R_PCM
        } else {
            0
        }
    } else if name.len() == 6 {
        if name == "COMMIT"@ {
            COMMIT
        } else if name == "R_ECHO"@ {
            R_ECHO
        } else {
            0
        }
    } else if name.len() == 7 {
        if name == "PRODUCE"@ {
            PRODUCE
        } else if name == "GET_LAG"@ {
            GET_LAG
        } else if name == "R_P_REG"@ {
            R_P_REG
        } else if name == "R_C_REG"@ {
            R_C_REG
        } else if name == "R_FETCH"@ {
            R_FETCH
        } else if name == "R_ERROR"@ {
            R_ERROR
        } else {
            0
        }
    } else if name.len() == 8 {
        if name == "R_COMMIT"@ {
            R_COMMIT
        } else {
            0
        }
    } else if name.len() == 9 {
        if name == "REPLICATE"@ {
            REPLICATE
        } else if name == "HANDSHAKE"@ {
            HANDSHAKE
        } else if name == "R_PRODUCE"@ {
            R_PRODUCE
        } else if name == "R_GET_LAG"@ {
            R_GET_LAG
        } else {
            0
        }
    } else if name.len() == 10 {
        if name == "JOIN_GROUP"@ {
            JOIN_GROUP
        } else {
            0
        }
    } else if name.len() == 11 {
        if name == "LIST_TOPICS"@ {
            LIST_TOPICS
        } else if name == "GET_CLUSTER"@ {
            GET_CLUSTER
        } else if name == "R_REPLICATE"@ {
            R_REPLICATE
        } else if name == "R_HANDSHAKE"@ {
            R_HANDSHAKE
        } else {
            0
        }
    } else if name.len() == 12 {
        if name == "CREATE_TOPIC"@ {
            CREATE_TOPIC
        } else if name == "R_NOT_LEADER"@ {
            R_NOT_LEADER
        } else if name == "R_JOIN_GROUP"@ {
            R_JOIN_GROUP
        } else {
            0
        }
    } else if name.len() == 13 {
        if name == "R_LIST_TOPICS"@ {
            R_LIST_TOPICS
        } else if name == "R_GET_CLUSTER"@ {
            R_GET_CLUSTER
        } else {
            0
        }
    } else if name.len() == 14 {
        if name == "DESCRIBE_TOPIC"@ {
            DESCRIBE_TOPIC
        } else if name == "R_CREATE_TOPIC"@ {
            R_CREATE_TOPIC
        } else {
            0
        }
    } else if name.len() == 15 {
        if name == "GROUP_HEARTBEAT"@ {
            GROUP_HEARTBEAT
        } else {
            0
        }
    } else if name.len() == 16 {
        if name == "BROKER_HEARTBEAT"@ {
            BROKER_HEARTBEAT
        } else if name == "R_DESCRIBE_TOPIC"@ {
            R_DESCRIBE_TOPIC
        } else {
            0
        }
    } else if name.len() == 17 {
        if name == "R_GROUP_HEARTBEAT"@ {
            R_GROUP_HEARTBEAT
        } else {
            0
        }
    } else if name.len() == 18 {
        if name == "IDEMPOTENT_PRODUCE"@ {
            IDEMPOTENT_PRODUCE
        } else if name == "R_BROKER_HEARTBEAT"@ {
            R_BROKER_HEARTBEAT
        } else {
            0
        }
    } else {
        0
    }
}

/// Every message kind is logged under its own name: two messages get the same
/// name exactly when they have the same type byte, that is are of the same kind.
pub proof fn lemma_request_names_distinct(m1: MessageView, m2: MessageView)
    ensures
        spec_request_name(m1) == spec_request_name(m2) <==> spec_type_byte(m1) == spec_type_byte(m2),
{
    lemma_name_of_kind(m1);
    lemma_name_of_kind(m2);
}

proof fn lemma_name_of_kind(m: MessageView)
    ensures
        spec_request_name(m) == name_of_type(spec_type_byte(m)),
        type_of_name(spec_request_name(m)) == spec_type_byte(m),
{
    match m {
        MessageView::Echo(_) => {
            reveal_strlit("ECHO");
        },
        MessageView::ProducerRegister(_) => {
            reveal_strlit("P_REG");
        },
        MessageView::ConsumerRegister(_) => {
            reveal_strlit("C_REG");
            reveal_strlit("P_REG");
            assert("C_REG"@[0] != "P_REG"@[0]);
        },
        MessageView::Pcm(_) => {
            reveal_strlit("PCM");
        },
        MessageView::Fetch(_) => {
            reveal_strlit("FETCH");
            reveal_strlit("P_REG");
            assert("FETCH"@[0] != "P_REG"@[0]);
            reveal_strlit("C_REG");
            assert("FETCH"@[0] != "C_REG"@[0]);
        },
        MessageView::CommitOffset(_) => {
            reveal_strlit("COMMIT");
        },
        MessageView::Produce(_) => {
            reveal_strlit("PRODUCE");
        },
        MessageView::IdempotentProduce(_) => {
            reveal_strlit("IDEMPOTENT_PRODUCE");
        },
        MessageView::CreateTopic(_) => {
            reveal_strlit("CREATE_TOPIC");
        },
        MessageView::DescribeTopic(_) => {
            reveal_strlit("DESCRIBE_TOPIC");
        },
        MessageView::ListTopics => {
            reveal_strlit("LIST_TOPICS");
        },
        MessageView::GetLag(_) => {
            reveal_strlit("GET_LAG");
            reveal_strlit("PRODUCE");
            assert("GET_LAG"@[0] != "PRODUCE"@[0]);
        },
        MessageView::Replicate(_) => {
            reveal_strlit("REPLICATE");
        },
        MessageView::GetCluster => {
            reveal_strlit("GET_CLUSTER");
            reveal_strlit("LIST_TOPICS");
            assert("GET_CLUSTER"@[0] != "LIST_TOPICS"@[0]);
        },
        MessageView::BrokerHeartbeat(_) => {
            reveal_strlit("BROKER_HEARTBEAT");
        },
        MessageView::JoinGroup(_) => {
            reveal_strlit("JOIN_GROUP");
        },
        MessageView::GroupHeartbeat(_) => {
            reveal_strlit("GROUP_HEARTBEAT");
        },
        MessageView::Handshake(_) => {
            reveal_strlit("HANDSHAKE");
            reveal_strlit("REPLICATE");
            assert("HANDSHAKE"@[0] != "REPLICATE"@[0]);
        },
        MessageView::REcho(_) => {
            reveal_strlit("R_ECHO");
            reveal_strlit("COMMIT");
            assert("R_ECHO"@[0] != "COMMIT"@[0]);
        },
        MessageView::RProducerRegister(_) => {
            reveal_strlit("R_P_REG");
            reveal_strlit("PRODUCE");
            assert("R_P_REG"@[0] != "PRODUCE"@[0]);
            reveal_strlit("GET_LAG");
            assert("R_P_REG"@[0] != "GET_LAG"@[0]);
        },
        MessageView::RConsumerRegister(_) => {
            reveal_strlit("R_C_REG");
            reveal_strlit("PRODUCE");
            assert("R_C_REG"@[0] != "PRODUCE"@[0]);
            reveal_strlit("GET_LAG");
            assert("R_C_REG"@[0] != "GET_LAG"@[0]);
            reveal_strlit("R_P_REG");
            assert("R_C_REG"@[2] != "R_P_REG"@[2]);
        },
        MessageView::RPcm(_) => {
            reveal_strlit("R_PCM");
            reveal_strlit("P_REG");
            assert("R_PCM"@[0] != "P_REG"@[0]);
            reveal_strlit("C_REG");
            assert("R_PCM"@[0] != "C_REG"@[0]);
            reveal_strlit("FETCH");
            assert("R_PCM"@[0] != "FETCH"@[0]);
        },
        MessageView::RFetch(_) => {
            reveal_strlit("R_FETCH");
            reveal_strlit("PRODUCE");
            assert("R_FETCH"@[0] != "PRODUCE"@[0]);
            reveal_strlit("GET_LAG");
            assert("R_FETCH"@[0] != "GET_LAG"@[0]);
            reveal_strlit("R_P_REG");
            assert("R_FETCH"@[2] != "R_P_REG"@[2]);
            reveal_strlit("R_C_REG");
            assert("R_FETCH"@[2] != "R_C_REG"@[2]);
        },
        MessageView::RCommitOffset(_) => {
            reveal_strlit("R_COMMIT");
        },
        MessageView::RProduce(_) => {
            reveal_strlit("R_PRODUCE");
            reveal_strlit("REPLICATE");
            assert("R_PRODUCE"@[1] != "REPLICATE"@[1]);
            reveal_strlit("HANDSHAKE");
            assert("R_PRODUCE"@[0] != "HANDSHAKE"@[0]);
        },
        MessageView::RCreateTopic(_) => {
            reveal_strlit("R_CREATE_TOPIC");
            reveal_strlit("DESCRIBE_TOPIC");
            assert("R_CREATE_TOPIC"@[0] != "DESCRIBE_TOPIC"@[0]);
        },
        MessageView::RDescribeTopic(_) => {
            reveal_strlit("R_DESCRIBE_TOPIC");
            reveal_strlit("BROKER_HEARTBEAT");
            assert("R_DESCRIBE_TOPIC"@[0] != "BROKER_HEARTBEAT"@[0]);
        },
        MessageView::RListTopics(_) => {
            reveal_strlit("R_LIST_TOPICS");
        },
        MessageView::RGetLag(_) => {
            reveal_strlit("R_GET_LAG");
            reveal_strlit("REPLICATE");
            assert("R_GET_LAG"@[1] != "REPLICATE"@[1]);
            reveal_strlit("HANDSHAKE");
            assert("R_GET_LAG"@[0] != "HANDSHAKE"@[0]);
            reveal_strlit("R_PRODUCE");
            assert("R_GET_LAG"@[2] != "R_PRODUCE"@[2]);
        },
        MessageView::RReplicate(_) => {
            reveal_strlit("R_REPLICATE");
            reveal_strlit("LIST_TOPICS");
            assert("R_REPLICATE"@[0] != "LIST_TOPICS"@[0]);
            reveal_strlit("GET_CLUSTER");
            assert("R_REPLICATE"@[0] != "GET_CLUSTER"@[0]);
        },
        MessageView::RGetCluster(_) => {
            reveal_strlit("R_GET_CLUSTER");
            reveal_strlit("R_LIST_TOPICS");
            assert("R_GET_CLUSTER"@[2] != "R_LIST_TOPICS"@[2]);
        },
        MessageView::RNotLeader(_) => {
            reveal_strlit("R_NOT_LEADER");
            reveal_strlit("CREATE_TOPIC");
            assert("R_NOT_LEADER"@[0] != "CREATE_TOPIC"@[0]);
        },
        MessageView::RBrokerHeartbeat(_) => {
            reveal_strlit("R_BROKER_HEARTBEAT");
            reveal_strlit("IDEMPOTENT_PRODUCE");
            assert("R_BROKER_HEARTBEAT"@[0] != "IDEMPOTENT_PRODUCE"@[0]);
        },
        MessageView::RJoinGroup(_) => {
            reveal_strlit("R_JOIN_GROUP");
            reveal_strlit("CREATE_TOPIC");
            assert("R_JOIN_GROUP"@[0] != "CREATE_TOPIC"@[0]);
            reveal_strlit("R_NOT_LEADER");
            assert("R_JOIN_GROUP"@[2] != "R_NOT_LEADER"@[2]);
        },
        MessageView::RGroupHeartbeat(_, _) => {
            reveal_strlit("R_GROUP_HEARTBEAT");
        },
        MessageView::RHandshake(_, _) => {
            reveal_strlit("R_HANDSHAKE");
            reveal_strlit("LIST_TOPICS");
            assert("R_HANDSHAKE"@[0] != "LIST_TOPICS"@[0]);
            reveal_strlit("GET_CLUSTER");
            assert("R_HANDSHAKE"@[0] != "GET_CLUSTER"@[0]);
            reveal_strlit("R_REPLICATE");
            assert("R_HANDSHAKE"@[2] != "R_REPLICATE"@[2]);
        },
        MessageView::RError(_, _) => {
            reveal_strlit("R_ERROR");
            reveal_strlit("PRODUCE");
            assert("R_ERROR"@[0] != "PRODUCE"@[0]);
            reveal_strlit("GET_LAG");
            assert("R_ERROR"@[0] != "GET_LAG"@[0]);
            reveal_strlit("R_P_REG");
            assert("R_ERROR"@[2] != "R_P_REG"@[2]);
            reveal_strlit("R_C_REG");
            assert("R_ERROR"@[2] != "R_C_REG"@[2]);
            reveal_strlit("R_FETCH");
            assert("R_ERROR"@[2] != "R_FETCH"@[2]);
        },
    }
}

pub fn request_name(message: &Message) -> (name: &'static str)
    ensures
        name@ == spec_request_name(message@),
{
    match message {
        Message::Echo(_) => "ECHO",
        Message::ProducerRegister(_) => "P_REG",
        Message::ConsumerRegister(_) => "C_REG",
        Message::Pcm(_) => "PCM",
        Message::Fetch(_) => "FETCH",
        Message::CommitOffset(_) => "COMMIT",
        Message::Produce(_) => "PRODUCE",
        Message::IdempotentProduce(_) => "IDEMPOTENT_PRODUCE",
        Message::CreateTopic(_) => "CREATE_TOPIC",
        Message::DescribeTopic(_) => "DESCRIBE_TOPIC",
        Message::ListTopics => "LIST_TOPICS",
        Message::GetLag(_) => "GET_LAG",
        Message::Replicate(_) => "REPLICATE",
        Message::GetCluster => "GET_CLUSTER",
        Message::BrokerHeartbeat(_) => "BROKER_HEARTBEAT",
        Message::JoinGroup(_) => "JOIN_GROUP",
        Message::GroupHeartbeat(_) => "GROUP_HEARTBEAT",
        Message::Handshake(_) => "HANDSHAKE",
        Message::REcho(_) => "R_ECHO",
        Message::RProducerRegister(_) => "R_P_REG",
        Message::RConsumerRegister(_) => "R_C_REG",
        Message::RPcm(_) => "R_PCM",
        Message::RFetch(_) => "R_FETCH",
        Message::RCommitOffset(_) => "R_COMMIT",
        Message::RProduce(_) => "R_PRODUCE",
        Message::RCreateTopic(_) => "R_CREATE_TOPIC",
        Message::RDescribeTopic(_) => "R_DESCRIBE_TOPIC",
        Message::RListTopics(_) => "R_LIST_TOPICS",
        Message::RGetLag(_) => "R_GET_LAG",
        Message::RReplicate(_) => "R_REPLICATE",
        Message::RGetCluster(_) => "R_GET_CLUSTER",
        Message::RNotLeader(_) => "R_NOT_LEADER",
        Message::RBrokerHeartbeat(_) => "R_BROKER_HEARTBEAT",
        Message::RJoinGroup(_) => "R_JOIN_GROUP",
        Message::RGroupHeartbeat(_, _) => "R_GROUP_HEARTBEAT",
        Message::RHandshake(_, _) => "R_HANDSHAKE",
        Message::RError(_, _) => "R_ERROR",
    }
}

} // verus!
