pub mod topic_message;
