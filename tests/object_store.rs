use write_buffer::object_store::{
    AmazonS3, File, GoogleCloudStorage, InMemory, MicrosoftAzure, ObjectStore, ObjectStoreIntegration,
};

#[test]
fn constructors_pick_the_integration() {
    let s3 = ObjectStore::new_amazon_s3(AmazonS3 { region: "us-east-1".to_string(), bucket_name: "b".to_string() });
    assert!(matches!(s3.0, ObjectStoreIntegration::AmazonS3(ref c) if c.bucket_name == "b"));
    let gcs = ObjectStore::new_google_cloud_storage(GoogleCloudStorage { bucket_name: "g".to_string() });
    assert!(matches!(gcs.0, ObjectStoreIntegration::GoogleCloudStorage(_)));
    let mem = ObjectStore::new_in_memory(InMemory {});
    assert!(matches!(mem.0, ObjectStoreIntegration::InMemory(_)));
    let file = ObjectStore::new_file(File { root: "/tmp/x".to_string() });
    assert!(matches!(file.0, ObjectStoreIntegration::File(ref f) if f.root == "/tmp/x"));
    let azure = ObjectStore::new_microsoft_azure(MicrosoftAzure { account: "a".to_string(), container_name: "c".to_string() });
    assert!(matches!(azure.0, ObjectStoreIntegration::MicrosoftAzure(ref a) if a.container_name == "c"));
}
