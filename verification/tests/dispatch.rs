use watermark::batch::BatchError;
use watermark::dispatch::process_multiprocess;

#[test]
fn one_job_per_image_in_input_order() {
    let images = vec!["tmp/img1.png".to_string(), "tmp/img2.png".to_string()];
    let jobs = process_multiprocess(images, "tmp/watermark.png".to_string()).unwrap();
    assert_eq!(jobs.len(), 2);
    assert_eq!(jobs[0].base_path, "tmp/img1.png");
    assert_eq!(jobs[1].base_path, "tmp/img2.png");
    for job in &jobs {
        assert_eq!(job.watermark_path, "tmp/watermark.png");
        assert!(job.output_path.starts_with("tmp/"));
        assert!(job.output_path.ends_with(".png"));
        assert_eq!(job.output_path.len(), 44);
    }
    // Fresh tokens: the two generated output locations differ.
    assert_ne!(jobs[0].output_path, jobs[1].output_path);
}

#[test]
fn empty_image_list_is_rejected_before_dispatch() {
    let r = process_multiprocess(Vec::new(), "tmp/watermark.png".to_string());
    assert!(matches!(r, Err(BatchError::EmptyBatch)));
}
